//! Text as a sequence of characters: the conversions, cuts and comparisons that the
//! configuration and list grammars are written with.
use vstd::prelude::*;
use vstd::slice::slice_subrange;
use vstd::string::*;
use vstd::utf8::{decode_utf8, encode_utf8, valid_utf8};

verus! {

/// `String::push` appends one character to the end of the string.
pub assume_specification[ String::push ](text: &mut String, c: char)
    ensures
        final(text)@ == old(text)@.push(c),
;

/// The number of bytes that a text takes in UTF-8.
pub open spec fn byte_len(s: Seq<char>) -> nat {
    encode_utf8(s).len()
}

/// The texts that a list of character vectors holds.
pub open spec fn views(list: Seq<Vec<char>>) -> Seq<Seq<char>> {
    Seq::new(list.len(), |i: int| list[i]@)
}

/// The texts that a list of strings holds.
pub open spec fn texts(list: Seq<String>) -> Seq<Seq<char>> {
    Seq::new(list.len(), |i: int| list[i]@)
}

/// What std says is wrong with bytes that are no UTF-8.
pub uninterp spec fn utf8_fault(bytes: Seq<u8>) -> Seq<char>;

/// `String::from_utf8`: the text that the bytes encode, exactly where they are valid UTF-8;
/// otherwise the error in words, which depends on the bytes alone.
#[verifier::external_body]
pub(crate) fn decode_text(bytes: &[u8]) -> (r: Result<String, String>)
    ensures
        r is Ok <==> valid_utf8(bytes@),
        r is Ok ==> r->Ok_0@ == decode_utf8(bytes@),
        r is Err ==> r->Err_0@ == utf8_fault(bytes@),
{
    match String::from_utf8(bytes.to_vec()) {
        Ok(text) => Ok(text),
        Err(error) => Err(error.to_string()),
    }
}

/// A text as std writes it for debugging: between quotation marks, with escapes.
pub uninterp spec fn debug_text(text: Seq<char>) -> Seq<char>;

/// `<str as Debug>::fmt`: what it writes depends on the text alone. Which characters are escaped,
/// and how, is left unsaid.
#[verifier::external_body]
pub(crate) fn quoted(text: &str) -> (r: String)
    ensures
        r@ == debug_text(text@),
{
    format!("{:?}", text)
}

/// The characters of a string slice.
pub fn to_chars(s: &str) -> (r: Vec<char>)
    ensures
        r@ == s@,
{
    let mut out: Vec<char> = Vec::new();
    for c in it: s.chars()
        invariant
            out@ == it.seq().take(it.index() as int),
            it.seq() == s@,
    {
        out.push(c);
    }
    out
}

/// The string that holds the given characters.
pub fn to_text(chars: &[char]) -> (r: String)
    ensures
        r@ == chars@,
{
    let mut out = String::new();
    let mut i: usize = 0;
    while i < chars.len()
        invariant
            i <= chars.len(),
            out@ == chars@.take(i as int),
        decreases chars.len() - i,
    {
        out.push(chars[i]);
        i = i + 1;
        assert(chars@.take(i as int) == chars@.take(i as int - 1).push(chars@[i as int - 1]));
    }
    assert(chars@.take(i as int) == chars@);
    out
}

/// The byte length of the given characters.
pub fn utf8_len(chars: &[char]) -> (r: usize)
    ensures
        r == byte_len(chars@),
{
    let text = to_text(chars);
    text.as_str().as_bytes().len()
}

/// The byte length of a string slice.
pub fn str_len(s: &str) -> (r: usize)
    ensures
        r == byte_len(s@),
{
    s.as_bytes().len()
}

/// A copy of the given characters.
pub fn copy_chars(chars: &[char]) -> (r: Vec<char>)
    ensures
        r@ == chars@,
{
    let mut out: Vec<char> = Vec::new();
    let mut i: usize = 0;
    while i < chars.len()
        invariant
            i <= chars.len(),
            out@ == chars@.take(i as int),
        decreases chars.len() - i,
    {
        out.push(chars[i]);
        i = i + 1;
        assert(chars@.take(i as int) == chars@.take(i as int - 1).push(chars@[i as int - 1]));
    }
    assert(chars@.take(i as int) == chars@);
    out
}

/// Whether two character sequences are the same.
pub fn same(a: &[char], b: &[char]) -> (r: bool)
    ensures
        r == (a@ == b@),
{
    if a.len() != b.len() {
        return false;
    }
    let mut i: usize = 0;
    while i < a.len()
        invariant
            a.len() == b.len(),
            i <= a.len(),
            forall|k: int| 0 <= k < i ==> a@[k] == b@[k],
        decreases a.len() - i,
    {
        if a[i] != b[i] {
            return false;
        }
        i = i + 1;
    }
    assert(a@ =~= b@);
    true
}

/// Whether two string slices hold the same text.
pub fn same_str(a: &str, b: &str) -> (r: bool)
    ensures
        r == (a@ == b@),
{
    let left = to_chars(a);
    let right = to_chars(b);
    same(&left, &right)
}

/// ASCII lower case; other characters stay.
pub open spec fn lower_char(c: char) -> char {
    if 'A' <= c && c <= 'Z' {
        (c as u8 + 32) as char
    } else {
        c
    }
}

pub open spec fn lower(s: Seq<char>) -> Seq<char> {
    Seq::new(s.len(), |i: int| lower_char(s[i]))
}

/// ASCII upper case; other characters stay.
pub open spec fn upper_char(c: char) -> char {
    if 'a' <= c && c <= 'z' {
        (c as u8 - 32) as char
    } else {
        c
    }
}

pub open spec fn upper(s: Seq<char>) -> Seq<char> {
    Seq::new(s.len(), |i: int| upper_char(s[i]))
}

pub fn to_lower_char(c: char) -> (r: char)
    ensures
        r == lower_char(c),
{
    if 'A' <= c && c <= 'Z' {
        (c as u8 + 32) as char
    } else {
        c
    }
}

pub fn to_lower(s: &[char]) -> (r: Vec<char>)
    ensures
        r@ == lower(s@),
{
    let mut out: Vec<char> = Vec::new();
    let mut i: usize = 0;
    while i < s.len()
        invariant
            i <= s.len(),
            out@ == lower(s@).take(i as int),
        decreases s.len() - i,
    {
        out.push(to_lower_char(s[i]));
        i = i + 1;
        assert(out@ =~= lower(s@).take(i as int));
    }
    assert(out@ =~= lower(s@));
    out
}

pub fn to_upper(s: &[char]) -> (r: Vec<char>)
    ensures
        r@ == upper(s@),
{
    let mut out: Vec<char> = Vec::new();
    let mut i: usize = 0;
    while i < s.len()
        invariant
            i <= s.len(),
            out@ == upper(s@).take(i as int),
        decreases s.len() - i,
    {
        let c = s[i];
        if 'a' <= c && c <= 'z' {
            out.push((c as u8 - 32) as char);
        } else {
            out.push(c);
        }
        i = i + 1;
        assert(out@ =~= upper(s@).take(i as int));
    }
    assert(out@ =~= upper(s@));
    out
}

/// Unicode white space: the characters with the property `White_Space`.
pub open spec fn is_space(c: char) -> bool {
    let v = c as u32;
    ||| 9 <= v <= 13
    ||| v == 32
    ||| v == 0x85
    ||| v == 0xa0
    ||| v == 0x1680
    ||| 0x2000 <= v <= 0x200a
    ||| v == 0x2028
    ||| v == 0x2029
    ||| v == 0x202f
    ||| v == 0x205f
    ||| v == 0x3000
}

pub fn space(c: char) -> (r: bool)
    ensures
        r == is_space(c),
{
    let v = c as u32;
    (9 <= v && v <= 13) || v == 32 || v == 0x85 || v == 0xa0 || v == 0x1680 || (0x2000 <= v && v
        <= 0x200a) || v == 0x2028 || v == 0x2029 || v == 0x202f || v == 0x205f || v == 0x3000
}

/// The text without the white space at its start.
pub open spec fn trim_start(s: Seq<char>) -> Seq<char>
    decreases s.len(),
{
    if s.len() > 0 && is_space(s[0]) {
        trim_start(s.skip(1))
    } else {
        s
    }
}

/// The text without the white space at its end.
pub open spec fn trim_end(s: Seq<char>) -> Seq<char>
    decreases s.len(),
{
    if s.len() > 0 && is_space(s.last()) {
        trim_end(s.drop_last())
    } else {
        s
    }
}

/// The text without the white space at both ends.
pub open spec fn trimmed(s: Seq<char>) -> Seq<char> {
    trim_end(trim_start(s))
}

pub fn trim(s: &[char]) -> (r: Vec<char>)
    ensures
        r@ == trimmed(s@),
{
    let mut start: usize = 0;
    assert(s@.skip(0) == s@);
    while start < s.len() && space(s[start])
        invariant
            start <= s.len(),
            trim_start(s@) == trim_start(s@.skip(start as int)),
        decreases s.len() - start,
    {
        assert(s@.skip(start as int).skip(1) == s@.skip(start as int + 1));
        start = start + 1;
    }
    let ghost body = s@.skip(start as int);
    assert(trim_start(s@) == body);
    let mut end: usize = s.len();
    assert(s@.subrange(start as int, end as int) == body);
    while end > start && space(s[end - 1])
        invariant
            start <= end <= s.len(),
            trim_end(body) == trim_end(s@.subrange(start as int, end as int)),
        decreases end,
    {
        assert(s@.subrange(start as int, end as int).drop_last() == s@.subrange(
            start as int,
            end as int - 1,
        ));
        assert(s@.subrange(start as int, end as int).last() == s@[end as int - 1]);
        end = end - 1;
    }
    assert(end > start ==> s@.subrange(start as int, end as int).last() == s@[end as int - 1]);
    copy_chars(slice_subrange(s, start, end))
}

/// The text without the run of `c` at its end.
pub open spec fn trim_end_of(s: Seq<char>, c: char) -> Seq<char>
    decreases s.len(),
{
    if s.len() > 0 && s.last() == c {
        trim_end_of(s.drop_last(), c)
    } else {
        s
    }
}

pub fn trim_end_char(s: &[char], c: char) -> (r: Vec<char>)
    ensures
        r@ == trim_end_of(s@, c),
{
    let mut end: usize = s.len();
    assert(s@.take(end as int) == s@);
    while end > 0 && s[end - 1] == c
        invariant
            end <= s.len(),
            trim_end_of(s@, c) == trim_end_of(s@.take(end as int), c),
        decreases end,
    {
        assert(s@.take(end as int).drop_last() == s@.take(end as int - 1));
        assert(s@.take(end as int).last() == s@[end as int - 1]);
        end = end - 1;
    }
    assert(end > 0 ==> s@.take(end as int).last() == s@[end as int - 1]);
    assert(s@.take(end as int) == s@.subrange(0, end as int));
    copy_chars(slice_subrange(s, 0, end))
}

/// The pieces between the separators, in order. A text without the separator is one
/// piece; the empty text is one empty piece.
pub open spec fn split(s: Seq<char>, sep: char) -> Seq<Seq<char>>
    decreases s.len(),
{
    if s.len() == 0 {
        seq![Seq::empty()]
    } else {
        let before = split(s.drop_last(), sep);
        if s.last() == sep {
            before.push(Seq::empty())
        } else {
            before.update(before.len() - 1, before.last().push(s.last()))
        }
    }
}

/// There is always a last piece.
pub proof fn split_nonempty(s: Seq<char>, sep: char)
    ensures
        split(s, sep).len() > 0,
    decreases s.len(),
{
    if s.len() > 0 {
        split_nonempty(s.drop_last(), sep);
    }
}

pub fn split_at_char(s: &[char], sep: char) -> (r: Vec<Vec<char>>)
    ensures
        views(r@) == split(s@, sep),
        r.len() > 0,
{
    let mut done: Vec<Vec<char>> = Vec::new();
    let mut current: Vec<char> = Vec::new();
    let mut i: usize = 0;
    while i < s.len()
        invariant
            i <= s.len(),
            views(done@).push(current@) == split(s@.take(i as int), sep),
        decreases s.len() - i,
    {
        let c = s[i];
        let ghost before = split(s@.take(i as int), sep);
        proof {
            assert(s@.take(i as int + 1).drop_last() == s@.take(i as int));
            assert(s@.take(i as int + 1).last() == c);
            assert(before.last() == current@);
            assert(before.len() == done@.len() + 1);
        }
        if c == sep {
            done.push(current);
            current = Vec::new();
            assert(views(done@) =~= before);
        } else {
            current.push(c);
            assert(views(done@).push(current@) =~= before.update(
                before.len() - 1,
                before.last().push(c),
            ));
        }
        i = i + 1;
    }
    assert(s@.take(i as int) == s@);
    let ghost whole = views(done@).push(current@);
    done.push(current);
    assert(views(done@) =~= whole);
    done
}

/// The runs of characters between white space, none of them empty.
pub open spec fn words_and_rest(s: Seq<char>) -> (Seq<Seq<char>>, Seq<char>)
    decreases s.len(),
{
    if s.len() == 0 {
        (Seq::empty(), Seq::empty())
    } else {
        let (words, rest) = words_and_rest(s.drop_last());
        if !is_space(s.last()) {
            (words, rest.push(s.last()))
        } else if rest.len() > 0 {
            (words.push(rest), Seq::empty())
        } else {
            (words, rest)
        }
    }
}

pub open spec fn words(s: Seq<char>) -> Seq<Seq<char>> {
    let (done, rest) = words_and_rest(s);
    if rest.len() > 0 {
        done.push(rest)
    } else {
        done
    }
}

pub fn split_words(s: &[char]) -> (r: Vec<Vec<char>>)
    ensures
        views(r@) == words(s@),
{
    let mut done: Vec<Vec<char>> = Vec::new();
    let mut current: Vec<char> = Vec::new();
    let mut i: usize = 0;
    assert(views(done@) =~= Seq::<Seq<char>>::empty());
    while i < s.len()
        invariant
            i <= s.len(),
            (views(done@), current@) == words_and_rest(s@.take(i as int)),
        decreases s.len() - i,
    {
        let c = s[i];
        proof {
            assert(s@.take(i as int + 1).drop_last() == s@.take(i as int));
            assert(s@.take(i as int + 1).last() == c);
        }
        if !space(c) {
            current.push(c);
        } else if current.len() > 0 {
            let ghost next = views(done@).push(current@);
            done.push(current);
            assert(views(done@) =~= next);
            current = Vec::new();
        }
        i = i + 1;
    }
    assert(s@.take(i as int) == s@);
    if current.len() > 0 {
        let ghost next = views(done@).push(current@);
        done.push(current);
        assert(views(done@) =~= next);
    }
    done
}

/// A line without the carriage return that ended it.
pub open spec fn without_return(line: Seq<char>) -> Seq<char> {
    if line.len() > 0 && line.last() == '\r' {
        line.drop_last()
    } else {
        line
    }
}

/// The lines of a text: each newline ends one, and so does the end of the text unless
/// nothing follows the last newline. A carriage return before a newline belongs to the
/// line's end.
pub open spec fn lines(s: Seq<char>) -> Seq<Seq<char>> {
    let pieces = split(s, '\n');
    let ended = pieces.drop_last().map_values(|p: Seq<char>| without_return(p));
    if pieces.last().len() == 0 {
        ended
    } else {
        ended.push(pieces.last())
    }
}

pub fn split_lines(s: &[char]) -> (r: Vec<Vec<char>>)
    ensures
        views(r@) == lines(s@),
{
    let pieces = split_at_char(s, '\n');
    let ghost model = views(pieces@);
    let ghost ended = model.drop_last().map_values(|p: Seq<char>| without_return(p));
    let count: usize = pieces.len() - 1;
    let mut out: Vec<Vec<char>> = Vec::new();
    let mut i: usize = 0;
    while i < count
        invariant
            i <= count,
            count == pieces.len() - 1,
            model == views(pieces@),
            ended == model.drop_last().map_values(|p: Seq<char>| without_return(p)),
            views(out@) == ended.take(i as int),
        decreases count - i,
    {
        let piece = &pieces[i];
        assert(model[i as int] == piece@);
        let line = if piece.len() > 0 && piece[piece.len() - 1] == '\r' {
            assert(piece@.subrange(0, piece@.len() - 1) == piece@.drop_last());
            copy_chars(slice_subrange(piece.as_slice(), 0, piece.len() - 1))
        } else {
            copy_chars(piece)
        };
        assert(line@ == ended[i as int]);
        let ghost next = views(out@).push(line@);
        out.push(line);
        assert(views(out@) =~= next);
        i = i + 1;
        assert(ended.take(i as int) =~= ended.take(i as int - 1).push(ended[i as int - 1]));
    }
    assert(ended.take(i as int) =~= ended);
    let last = &pieces[count];
    assert(model.last() == last@);
    if last.len() > 0 {
        out.push(copy_chars(last));
        assert(views(out@) =~= ended.push(model.last()));
    }
    out
}

/// Whether the text starts with the prefix.
pub open spec fn has_prefix(s: Seq<char>, prefix: Seq<char>) -> bool {
    prefix.len() <= s.len() && s.take(prefix.len() as int) == prefix
}

/// The text after the prefix, where it starts with it.
pub fn strip_prefix(s: &[char], prefix: &str) -> (r: Option<Vec<char>>)
    ensures
        r is Some <==> has_prefix(s@, prefix@),
        r is Some ==> r->0@ == s@.skip(prefix@.len() as int),
{
    let head = to_chars(prefix);
    if head.len() > s.len() {
        return None;
    }
    assert(s@.subrange(0, head@.len() as int) == s@.take(head@.len() as int));
    if same(slice_subrange(s, 0, head.len()), &head) {
        assert(s@.subrange(head@.len() as int, s@.len() as int) == s@.skip(head@.len() as int));
        Some(copy_chars(slice_subrange(s, head.len(), s.len())))
    } else {
        None
    }
}

/// Whether the characters spell the given text.
pub fn is_text(s: &[char], text: &str) -> (r: bool)
    ensures
        r == (s@ == text@),
{
    let other = to_chars(text);
    same(s, &other)
}

/// The position of the first `c`, or the length where there is none.
pub open spec fn index_of(s: Seq<char>, c: char) -> int
    decreases s.len(),
{
    if s.len() == 0 {
        0
    } else if s[0] == c {
        0
    } else {
        1 + index_of(s.skip(1), c)
    }
}

pub proof fn index_of_first(s: Seq<char>, c: char, i: int)
    requires
        0 <= i <= s.len(),
        forall|k: int| 0 <= k < i ==> s[k] != c,
        i < s.len() ==> s[i] == c,
    ensures
        index_of(s, c) == i,
    decreases s.len(),
{
    if s.len() > 0 && i > 0 {
        assert(s[0] != c);
        index_of_first(s.skip(1), c, i - 1);
    }
}

pub fn find_char(s: &[char], c: char) -> (r: usize)
    ensures
        r == index_of(s@, c),
        r <= s.len(),
        r < s.len() ==> s@[r as int] == c,
        forall|k: int| 0 <= k < r ==> s@[k] != c,
{
    let mut i: usize = 0;
    while i < s.len() && s[i] != c
        invariant
            i <= s.len(),
            forall|k: int| 0 <= k < i ==> s@[k] != c,
        decreases s.len() - i,
    {
        i = i + 1;
    }
    proof {
        index_of_first(s@, c, i as int);
    }
    i
}

/// The decimal digits of a number, without leading zeros.
pub open spec fn decimal(n: nat) -> Seq<char>
    decreases n,
{
    if n < 10 {
        seq![digit_char(n)]
    } else {
        decimal(n / 10).push(digit_char(n % 10))
    }
}

pub open spec fn digit_char(d: nat) -> char {
    (48 + d) as char
}

pub fn to_decimal(n: u64) -> (r: Vec<char>)
    ensures
        r@ == decimal(n as nat),
    decreases n,
{
    if n < 10 {
        let mut out: Vec<char> = Vec::new();
        out.push((48 + n as u8) as char);
        assert(out@ =~= decimal(n as nat));
        out
    } else {
        let mut out = to_decimal(n / 10);
        let low: u64 = n % 10;
        out.push((48 + low as u8) as char);
        out
    }
}

/// The two texts one after the other.
pub fn joined(a: &str, b: &str) -> (r: String)
    ensures
        r@ == a@ + b@,
{
    let mut out = to_chars(a);
    let tail = to_chars(b);
    push_all(&mut out, &tail);
    to_text(&out)
}

/// Appends the characters of `tail`.
pub fn push_all(out: &mut Vec<char>, tail: &[char])
    ensures
        final(out)@ == old(out)@ + tail@,
{
    let mut i: usize = 0;
    let ghost start = out@;
    assert(start + tail@.take(0) =~= start);
    while i < tail.len()
        invariant
            i <= tail.len(),
            out@ == start + tail@.take(i as int),
        decreases tail.len() - i,
    {
        out.push(tail[i]);
        i = i + 1;
        assert(out@ =~= start + tail@.take(i as int));
    }
    assert(tail@.take(i as int) =~= tail@);
}

/// A message made of a text, a number and a text.
pub fn with_number(before: &str, n: u64, after: &str) -> (r: String)
    ensures
        r@ == before@ + decimal(n as nat) + after@,
{
    let mut out = to_chars(before);
    let number = to_decimal(n);
    push_all(&mut out, &number);
    let tail = to_chars(after);
    push_all(&mut out, &tail);
    to_text(&out)
}

/// A message that ends with a number.
pub fn ending_in_number(before: &str, n: u64) -> (r: String)
    ensures
        r@ == before@ + decimal(n as nat),
{
    let mut out = to_chars(before);
    let number = to_decimal(n);
    push_all(&mut out, &number);
    to_text(&out)
}

/// The order of texts: by the first character that differs, then by length.
pub open spec fn precedes(a: Seq<char>, b: Seq<char>) -> bool
    decreases a.len(),
{
    if b.len() == 0 {
        false
    } else if a.len() == 0 {
        true
    } else if a[0] != b[0] {
        a[0] < b[0]
    } else {
        precedes(a.skip(1), b.skip(1))
    }
}

pub proof fn precedes_irreflexive(a: Seq<char>)
    ensures
        !precedes(a, a),
    decreases a.len(),
{
    if a.len() > 0 {
        precedes_irreflexive(a.skip(1));
    }
}

pub proof fn precedes_transitive(a: Seq<char>, b: Seq<char>, c: Seq<char>)
    requires
        precedes(a, b),
        precedes(b, c),
    ensures
        precedes(a, c),
    decreases a.len(),
{
    if a.len() > 0 && b.len() > 0 && c.len() > 0 && a[0] == b[0] && b[0] == c[0] {
        precedes_transitive(a.skip(1), b.skip(1), c.skip(1));
    }
}

pub proof fn precedes_total(a: Seq<char>, b: Seq<char>)
    ensures
        precedes(a, b) || a == b || precedes(b, a),
    decreases a.len(),
{
    if a.len() == 0 || b.len() == 0 {
        assert(a.len() == 0 && b.len() == 0 ==> a =~= b);
    } else if a[0] == b[0] {
        precedes_total(a.skip(1), b.skip(1));
        if a.skip(1) == b.skip(1) {
            assert(a =~= seq![a[0]] + a.skip(1));
            assert(b =~= seq![b[0]] + b.skip(1));
        }
    }
}

pub fn less(a: &[char], b: &[char]) -> (r: bool)
    ensures
        r == precedes(a@, b@),
{
    let mut i: usize = 0;
    assert(a@.skip(0) == a@);
    assert(b@.skip(0) == b@);
    while i < a.len() && i < b.len()
        invariant
            i <= a.len(),
            i <= b.len(),
            precedes(a@, b@) == precedes(a@.skip(i as int), b@.skip(i as int)),
        decreases a.len() - i,
    {
        assert(a@.skip(i as int)[0] == a@[i as int]);
        assert(b@.skip(i as int)[0] == b@[i as int]);
        if a[i] != b[i] {
            return a[i] < b[i];
        }
        assert(a@.skip(i as int).skip(1) == a@.skip(i as int + 1));
        assert(b@.skip(i as int).skip(1) == b@.skip(i as int + 1));
        i = i + 1;
    }
    i < b.len()
}

// ---- laws ----------------------------------------------------------------------------

/// The pieces with the separator between them.
pub open spec fn glued(pieces: Seq<Seq<char>>, sep: char) -> Seq<char>
    decreases pieces.len(),
{
    if pieces.len() == 0 {
        Seq::empty()
    } else if pieces.len() == 1 {
        pieces[0]
    } else {
        glued(pieces.drop_last(), sep).push(sep) + pieces.last()
    }
}

proof fn glued_grows(pieces: Seq<Seq<char>>, sep: char, c: char)
    requires
        pieces.len() > 0,
    ensures
        glued(pieces.update(pieces.len() - 1, pieces.last().push(c)), sep) == glued(
            pieces,
            sep,
        ).push(c),
{
    let next = pieces.update(pieces.len() - 1, pieces.last().push(c));
    assert(next.drop_last() =~= pieces.drop_last());
    assert(glued(next, sep) =~= glued(pieces, sep).push(c));
}

/// Cutting a text at a separator loses nothing: the pieces with the separator between them are the
/// text, and no piece holds the separator.
pub proof fn pieces_make_the_text(s: Seq<char>, sep: char)
    ensures
        glued(split(s, sep), sep) == s,
        forall|i: int, k: int|
            0 <= i < split(s, sep).len() && 0 <= k < split(s, sep)[i].len() ==> #[trigger] split(
                s,
                sep,
            )[i][k] != sep,
    decreases s.len(),
{
    if s.len() > 0 {
        let front = s.drop_last();
        let before = split(front, sep);
        pieces_make_the_text(front, sep);
        split_nonempty(front, sep);
        if s.last() == sep {
            assert(split(s, sep).drop_last() =~= before);
            assert(glued(split(s, sep), sep) =~= s);
        } else {
            glued_grows(before, sep, s.last());
            assert(glued(split(s, sep), sep) =~= s);
        }
        assert forall|i: int, k: int|
            0 <= i < split(s, sep).len() && 0 <= k < split(s, sep)[i].len() implies #[trigger] split(
            s,
            sep,
        )[i][k] != sep by {
            if i < before.len() && k < before[i].len() {
                assert(before[i][k] != sep);
            }
        }
    }
}

proof fn words_without_space(s: Seq<char>)
    requires
        forall|i: int| 0 <= i < s.len() ==> !is_space(#[trigger] s[i]),
    ensures
        words_and_rest(s) == (Seq::<Seq<char>>::empty(), s),
    decreases s.len(),
{
    if s.len() > 0 {
        words_without_space(s.drop_last());
        assert(words_and_rest(s).1 =~= s);
    }
}

proof fn words_continue(a: Seq<char>, c: char, b: Seq<char>)
    requires
        is_space(c),
    ensures
        words_and_rest(a.push(c) + b) == (words(a) + words_and_rest(b).0, words_and_rest(b).1),
    decreases b.len(),
{
    let s = a.push(c) + b;
    if b.len() == 0 {
        assert(s =~= a.push(c));
        assert(s.drop_last() =~= a);
        assert(words(a) + words_and_rest(b).0 =~= words(a));
    } else {
        words_continue(a, c, b.drop_last());
        assert(s.drop_last() =~= a.push(c) + b.drop_last());
        let (done, rest) = words_and_rest(b.drop_last());
        assert(words(a) + done.push(rest) =~= (words(a) + done).push(rest));
    }
}

/// White space parts words and is part of none: the words of two texts with white space between
/// them are those of the first and then those of the second, a text without white space is one
/// word, and the empty text holds none.
pub proof fn white_space_parts_words(a: Seq<char>, c: char, b: Seq<char>)
    requires
        is_space(c),
    ensures
        words(a.push(c) + b) == words(a) + words(b),
        (forall|i: int| 0 <= i < a.len() ==> !is_space(#[trigger] a[i])) ==> words(a) == (
        if a.len() == 0 {
            Seq::<Seq<char>>::empty()
        } else {
            seq![a]
        }),
{
    words_continue(a, c, b);
    assert(words(a.push(c) + b) =~= words(a) + words(b));
    if forall|i: int| 0 <= i < a.len() ==> !is_space(#[trigger] a[i]) {
        words_without_space(a);
        if a.len() > 0 {
            assert(words(a) =~= seq![a]);
        }
    }
}

/// A blank, a tab and the ends of lines are white space; what can be printed in ASCII is not.
pub proof fn blanks_are_white_space(c: char)
    ensures
        c == ' ' || c == '\t' || c == '\n' || c == '\r' ==> is_space(c),
        '!' <= c && c <= '~' ==> !is_space(c),
{
}

proof fn split_at_first(line: Seq<char>, sep: char, rest: Seq<char>)
    requires
        forall|i: int| 0 <= i < line.len() ==> #[trigger] line[i] != sep,
    ensures
        split(line, sep) == seq![line],
        split(line.push(sep) + rest, sep) == seq![line] + split(rest, sep),
    decreases line.len() + rest.len(),
{
    if rest.len() == 0 {
        assert(line.push(sep) + rest =~= line.push(sep));
        assert(line.push(sep).drop_last() =~= line);
        if line.len() > 0 {
            split_at_first(line.drop_last(), sep, rest);
            assert(line[line.len() - 1] != sep);
            assert(line.drop_last().push(line.last()) =~= line);
            assert(split(line, sep) =~= seq![line]);
        } else {
            assert(line =~= Seq::empty());
        }
        assert(split(line, sep) == seq![line]);
        assert(split(rest, sep) == seq![Seq::<char>::empty()]);
        assert(line.push(sep).last() == sep);
        assert(split(line.push(sep), sep) == seq![line].push(Seq::empty()));
        assert(split(line.push(sep), sep) =~= seq![line] + split(rest, sep));
    } else {
        split_at_first(line, sep, rest.drop_last());
        let s = line.push(sep) + rest;
        assert(s.drop_last() =~= line.push(sep) + rest.drop_last());
        split_nonempty(rest.drop_last(), sep);
        assert(split(s, sep) =~= seq![line] + split(rest, sep));
    }
}

/// A text is cut at its first separator into what stands before it and the pieces of what stands
/// behind it; a text without the separator is one piece.
pub proof fn the_first_piece_ends_at_the_separator(piece: Seq<char>, sep: char, rest: Seq<char>)
    requires
        forall|i: int| 0 <= i < piece.len() ==> #[trigger] piece[i] != sep,
    ensures
        split(piece, sep) == seq![piece],
        split(piece.push(sep) + rest, sep) == seq![piece] + split(rest, sep),
{
    split_at_first(piece, sep, rest);
}

/// A newline ends a line, with the carriage return before it; the end of the text ends one too
/// where anything stands behind the last newline.
pub proof fn newlines_end_lines(line: Seq<char>, rest: Seq<char>)
    requires
        forall|i: int| 0 <= i < line.len() ==> #[trigger] line[i] != '\n',
    ensures
        lines(line) == (if line.len() == 0 {
            Seq::<Seq<char>>::empty()
        } else {
            seq![line]
        }),
        lines(line.push('\n') + rest) == seq![
            if line.len() > 0 && line.last() == '\r' {
                line.drop_last()
            } else {
                line
            },
        ] + lines(rest),
{
    split_at_first(line, '\n', rest);
    split_nonempty(rest, '\n');
    let pieces = split(line.push('\n') + rest, '\n');
    assert(pieces.drop_last() =~= seq![line] + split(rest, '\n').drop_last());
    assert(lines(line) =~= (if line.len() == 0 {
        Seq::<Seq<char>>::empty()
    } else {
        seq![line]
    }));
    assert(lines(line.push('\n') + rest) =~= seq![without_return(line)] + lines(rest));
}

proof fn trim_start_cuts(s: Seq<char>) -> (from: int)
    ensures
        0 <= from <= s.len(),
        trim_start(s) == s.skip(from),
        forall|i: int| 0 <= i < from ==> is_space(#[trigger] s[i]),
        from < s.len() ==> !is_space(s[from]),
    decreases s.len(),
{
    if s.len() > 0 && is_space(s[0]) {
        let rest = s.skip(1);
        let from = trim_start_cuts(rest);
        assert(rest.skip(from) =~= s.skip(from + 1));
        assert forall|i: int| 0 <= i < from + 1 implies is_space(#[trigger] s[i]) by {
            if i > 0 {
                assert(is_space(rest[i - 1]));
            }
        }
        if from < rest.len() {
            assert(!is_space(rest[from]));
        }
        from + 1
    } else {
        assert(s.skip(0) =~= s);
        0
    }
}

proof fn trim_end_cuts(s: Seq<char>) -> (to: int)
    ensures
        0 <= to <= s.len(),
        trim_end(s) == s.take(to),
        forall|i: int| to <= i < s.len() ==> is_space(#[trigger] s[i]),
        to > 0 ==> !is_space(s[to - 1]),
    decreases s.len(),
{
    if s.len() > 0 && is_space(s.last()) {
        let front = s.drop_last();
        let to = trim_end_cuts(front);
        assert(front.take(to) =~= s.take(to));
        assert forall|i: int| to <= i < s.len() implies is_space(#[trigger] s[i]) by {
            if i < front.len() {
                assert(is_space(front[i]));
            }
        }
        if to > 0 {
            assert(!is_space(front[to - 1]));
        }
        to
    } else {
        assert(s.take(s.len() as int) =~= s);
        s.len() as int
    }
}

/// Trimming takes away white space at both ends and nothing else: what is left neither starts nor
/// ends with white space, and between white space it makes the text again.
pub proof fn trimming_takes_white_space_only(s: Seq<char>) -> (around: (Seq<char>, Seq<char>))
    ensures
        s == around.0 + trimmed(s) + around.1,
        forall|i: int| 0 <= i < around.0.len() ==> is_space(#[trigger] around.0[i]),
        forall|i: int| 0 <= i < around.1.len() ==> is_space(#[trigger] around.1[i]),
        trimmed(s).len() > 0 ==> !is_space(trimmed(s)[0]) && !is_space(trimmed(s).last()),
{
    let from = trim_start_cuts(s);
    let tail = s.skip(from);
    let to = trim_end_cuts(tail);
    assert(s =~= s.take(from) + trimmed(s) + tail.skip(to));
    assert forall|i: int| 0 <= i < tail.skip(to).len() implies is_space(
        #[trigger] tail.skip(to)[i],
    ) by {
        assert(is_space(tail[to + i]));
    }
    if trimmed(s).len() > 0 {
        assert(trimmed(s)[0] == s[from]);
    }
    (s.take(from), tail.skip(to))
}

/// What is cut off the end of a text is a run of the character, and all of it.
pub proof fn cut_ends_are_runs(s: Seq<char>, c: char)
    ensures
        ({
            let kept = trim_end_of(s, c);
            &&& kept.len() <= s.len()
            &&& kept == s.take(kept.len() as int)
            &&& forall|i: int| kept.len() <= i < s.len() ==> #[trigger] s[i] == c
            &&& kept.len() > 0 ==> kept.last() != c
        }),
    decreases s.len(),
{
    if s.len() > 0 && s.last() == c {
        let front = s.drop_last();
        cut_ends_are_runs(front, c);
        let kept = trim_end_of(s, c);
        assert(kept =~= s.take(kept.len() as int));
        assert forall|i: int| kept.len() <= i < s.len() implies #[trigger] s[i] == c by {
            if i < front.len() {
                assert(front[i] == c);
            }
        }
    } else {
        assert(s.take(s.len() as int) =~= s);
    }
}

/// Capital ASCII letters become small ones and small ones capital; every other character stays.
pub proof fn only_letters_change_case(s: Seq<char>, i: int)
    requires
        0 <= i < s.len(),
    ensures
        lower(s).len() == s.len() && upper(s).len() == s.len(),
        lower(s)[i] as u32 == (if 65 <= s[i] as u32 <= 90 {
            s[i] as u32 + 32
        } else {
            s[i] as int
        }),
        upper(s)[i] as u32 == (if 97 <= s[i] as u32 <= 122 {
            s[i] as u32 - 32
        } else {
            s[i] as int
        }),
{
}

/// Of two texts the one comes first whose character is smaller where they first differ; a text
/// comes before those that go on behind it.
pub proof fn texts_are_ordered_by_their_first_difference(
    common: Seq<char>,
    a: Seq<char>,
    b: Seq<char>,
)
    requires
        b.len() > 0,
        a.len() > 0 ==> a[0] != b[0],
    ensures
        precedes(common + a, common + b) <==> a.len() == 0 || a[0] < b[0],
    decreases common.len(),
{
    if common.len() == 0 {
        assert(common + a =~= a);
        assert(common + b =~= b);
    } else {
        assert((common + a).skip(1) =~= common.skip(1) + a);
        assert((common + b).skip(1) =~= common.skip(1) + b);
        texts_are_ordered_by_their_first_difference(common.skip(1), a, b);
    }
}

/// Every character of a text is the separator or stands in one of the pieces.
pub proof fn characters_stand_in_pieces(s: Seq<char>, sep: char, i: int)
    requires
        0 <= i < s.len(),
        s[i] != sep,
    ensures
        exists|p: int, k: int|
            0 <= p < split(s, sep).len() && 0 <= k < split(s, sep)[p].len() && #[trigger] split(
                s,
                sep,
            )[p][k] == s[i],
    decreases s.len(),
{
    let front = s.drop_last();
    let before = split(front, sep);
    let all = split(s, sep);
    split_nonempty(front, sep);
    if i < front.len() {
        characters_stand_in_pieces(front, sep, i);
        let (p, k) = choose|p: int, k: int|
            0 <= p < before.len() && 0 <= k < before[p].len() && #[trigger] before[p][k] == front[i];
        assert(all[p][k] == s[i]);
    } else {
        let p = before.len() - 1;
        assert(all[p][before[p].len() as int] == s[i]);
    }
}

proof fn words_start_as_the_text(s: Seq<char>)
    requires
        s.len() > 0,
        !is_space(s[0]),
    ensures
        ({
            let (done, rest) = words_and_rest(s);
            if done.len() == 0 {
                rest.len() > 0 && rest[0] == s[0]
            } else {
                done[0].len() > 0 && done[0][0] == s[0]
            }
        }),
    decreases s.len(),
{
    let front = s.drop_last();
    if s.len() > 1 {
        assert(front[0] == s[0]);
        words_start_as_the_text(front);
    } else {
        assert(words_and_rest(front) == (Seq::<Seq<char>>::empty(), Seq::<char>::empty()));
        assert(words_and_rest(s).1 =~= seq![s[0]]);
    }
}

/// A text that does not start with white space starts with its first word.
pub proof fn the_first_word_starts_the_text(s: Seq<char>)
    requires
        s.len() > 0,
        !is_space(s[0]),
    ensures
        words(s).len() > 0,
        words(s)[0].len() > 0,
        words(s)[0][0] == s[0],
{
    words_start_as_the_text(s);
}

proof fn white_space_holds_no_word(before: Seq<char>, s: Seq<char>, after: Seq<char>)
    requires
        forall|i: int| 0 <= i < before.len() ==> is_space(#[trigger] before[i]),
        forall|i: int| 0 <= i < after.len() ==> is_space(#[trigger] after[i]),
    ensures
        words(before + s + after) == words(s),
    decreases before.len() + after.len(),
{
    let all = before + s + after;
    let none = Seq::<char>::empty();
    if after.len() > 0 {
        let front = after.drop_last();
        white_space_holds_no_word(before, s, front);
        white_space_parts_words(before + s + front, after.last(), none);
        white_space_parts_words(none, after.last(), none);
        assert(after[after.len() - 1] == after.last());
        assert((before + s + front).push(after.last()) + none =~= all);
        assert(words(s) + words(none) =~= words(s));
    } else if before.len() > 0 {
        let rest = before.skip(1);
        assert forall|i: int| 0 <= i < rest.len() implies is_space(#[trigger] rest[i]) by {
            assert(is_space(before[i + 1]));
        }
        white_space_holds_no_word(rest, s, after);
        white_space_parts_words(none, before[0], rest + s + after);
        assert(none.push(before[0]) + (rest + s + after) =~= all);
        assert(words(none) + words(s) =~= words(s));
    } else {
        assert(all =~= s);
    }
}

/// Trimming a text leaves its words.
pub proof fn trimming_leaves_the_words(s: Seq<char>)
    ensures
        words(trimmed(s)) == words(s),
        trimmed(s).len() == 0 <==> words(s).len() == 0,
{
    let around = trimming_takes_white_space_only(s);
    white_space_holds_no_word(around.0, trimmed(s), around.1);
    if trimmed(s).len() > 0 {
        the_first_word_starts_the_text(trimmed(s));
    } else {
        assert(trimmed(s) =~= Seq::empty());
    }
}

proof fn split_takes_more(s: Seq<char>, sep: char, more: Seq<char>)
    requires
        forall|k: int| 0 <= k < more.len() ==> #[trigger] more[k] != sep,
    ensures
        split(s, sep).len() > 0,
        split(s + more, sep) == split(s, sep).update(
            split(s, sep).len() - 1,
            split(s, sep).last() + more,
        ),
    decreases more.len(),
{
    split_nonempty(s, sep);
    let before = split(s, sep);
    if more.len() == 0 {
        assert(s + more =~= s);
        assert(before.last() + more =~= before.last());
        assert(before.update(before.len() - 1, before.last()) =~= before);
    } else {
        let front = more.drop_last();
        split_takes_more(s, sep, front);
        let whole = s + more;
        assert(whole.drop_last() =~= s + front);
        assert(whole.last() == more[more.len() - 1]);
        let prior = before.update(before.len() - 1, before.last() + front);
        assert(prior.last() == before.last() + front);
        assert((before.last() + front).push(more.last()) =~= before.last() + more);
        assert(split(whole, sep) =~= before.update(before.len() - 1, before.last() + more));
    }
}

/// Pieces that are put together with a separator between them part at it again.
pub proof fn glued_pieces_part_again(pieces: Seq<Seq<char>>, sep: char)
    requires
        pieces.len() > 0,
        forall|i: int, k: int|
            0 <= i < pieces.len() && 0 <= k < pieces[i].len() ==> #[trigger] pieces[i][k] != sep,
    ensures
        split(glued(pieces, sep), sep) == pieces,
    decreases pieces.len(),
{
    let last = pieces.last();
    assert forall|k: int| 0 <= k < last.len() implies #[trigger] last[k] != sep by {
        assert(pieces[pieces.len() - 1][k] != sep);
    }
    if pieces.len() == 1 {
        let none = Seq::<char>::empty();
        split_takes_more(none, sep, last);
        assert(none + last =~= last);
        assert(split(none, sep) =~= seq![none]);
        assert(split(last, sep) =~= pieces);
    } else {
        let front = pieces.drop_last();
        assert forall|i: int, k: int|
            0 <= i < front.len() && 0 <= k < front[i].len() implies #[trigger] front[i][k]
            != sep by {
            assert(pieces[i][k] != sep);
        }
        glued_pieces_part_again(front, sep);
        let start = glued(front, sep).push(sep);
        assert(start.drop_last() =~= glued(front, sep));
        assert(split(start, sep) == front.push(Seq::empty()));
        split_takes_more(start, sep, last);
        assert(front.push(Seq::empty()).last() + last =~= last);
        assert(split(start + last, sep) =~= pieces);
    }
}

} // verus!
