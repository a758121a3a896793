//! Planning and lifecycle of nftables capture, without any binding to the firewall: the
//! privileged backend and the store of the ownership record are injected.
use vstd::prelude::*;

use crate::net::{all_digits, is_digit, number, parse_unsigned, unsigned, SocketAddr};
use crate::names::alphanumeric;
use crate::text::{byte_len, debug_text, decimal, digit_char, joined, lines, push_all, quoted,
    same_str, split, split_lines, str_len, to_chars, to_decimal, to_text, without_return};

verus! {

pub const MAX_INTERFACE_BYTES: usize = 15;

pub const MAX_CHAIN_BYTES: usize = 32;

/// A name that nft takes without quotes: letters, digits and underscores.
pub open spec fn identifier(value: Seq<char>) -> bool {
    &&& 1 <= value.len() <= MAX_CHAIN_BYTES
    &&& forall|i: int| 0 <= i < value.len() ==> alphanumeric(#[trigger] value[i]) || value[i] == '_'
}

fn valid_identifier(value: &str) -> (r: bool)
    ensures
        r == identifier(value@),
{
    let chars = to_chars(value);
    if chars.len() == 0 || chars.len() > MAX_CHAIN_BYTES {
        return false;
    }
    let mut i: usize = 0;
    while i < chars.len()
        invariant
            i <= chars.len(),
            chars@ == value@,
            forall|k: int| 0 <= k < i ==> alphanumeric(#[trigger] value@[k]) || value@[k] == '_',
        decreases chars.len() - i,
    {
        let c = chars[i];
        if !(('0' <= c && c <= '9') || ('a' <= c && c <= 'z') || ('A' <= c && c <= 'Z') || c == '_') {
            assert(!(alphanumeric(value@[i as int]) || value@[i as int] == '_'));
            return false;
        }
        i = i + 1;
    }
    true
}

#[derive(Clone, Copy, Debug, PartialEq, Eq, Structural)]
pub enum ReplyRoute {
    OriginalDestination,
    MarkedRoute,
}

/// Where a captured message came from and how its reply returns.
#[derive(Clone, Debug, PartialEq, Eq)]
pub struct CaptureContext {
    pub original_destination: SocketAddr,
    pub client: SocketAddr,
    pub interface: String,
    pub mark: u32,
    pub reply_route: ReplyRoute,
}

#[derive(Debug, PartialEq, Eq)]
pub enum CaptureError {
    Bound(&'static str),
    InvalidPlan,
    Backend(String),
    Transaction { error: String, rollback: Result<(), String> },
    OwnershipMismatch,
}

/// An interface name: not empty, bounded and ASCII.
pub open spec fn interface_name(name: Seq<char>) -> bool {
    &&& 1 <= byte_len(name) <= MAX_INTERFACE_BYTES
    &&& vstd::utf8::is_ascii_chars(name)
}

impl CaptureContext {
    /// Checks the name of the interface.
    pub fn validate(&self) -> (r: Result<(), CaptureError>)
        ensures
            interface_name(self.interface@) ==> r is Ok,
            !interface_name(self.interface@) ==> {
                &&& r matches Err(CaptureError::Bound(field))
                &&& field@ == "interface"@
            },
    {
        let size: usize = str_len(self.interface.as_str());
        if size == 0 || size > MAX_INTERFACE_BYTES {
            return Err(CaptureError::Bound("interface"));
        }
        if !self.interface.as_str().is_ascii() {
            return Err(CaptureError::Bound("interface"));
        }
        Ok(())
    }
}

/// The rules that capture redirects with.
#[derive(Clone, Debug, PartialEq, Eq)]
pub struct NftRulePlan {
    pub table: String,
    pub chain: String,
    pub inbound_port: u16,
    pub redirect_port: u16,
    pub mark: u32,
}

/// The record of what was installed.
#[derive(Clone, Debug, PartialEq, Eq)]
pub struct CaptureOwnership {
    pub table: String,
    pub chain: String,
    pub inbound_port: u16,
    pub redirect_port: u16,
    pub mark: u32,
}

/// The value of a plan, and of an ownership record.
pub struct OwnershipView {
    pub table: Seq<char>,
    pub chain: Seq<char>,
    pub inbound_port: u16,
    pub redirect_port: u16,
    pub mark: u32,
}

impl View for NftRulePlan {
    type V = OwnershipView;

    open spec fn view(&self) -> OwnershipView {
        OwnershipView {
            table: self.table@,
            chain: self.chain@,
            inbound_port: self.inbound_port,
            redirect_port: self.redirect_port,
            mark: self.mark,
        }
    }
}

impl View for CaptureOwnership {
    type V = OwnershipView;

    open spec fn view(&self) -> OwnershipView {
        OwnershipView {
            table: self.table@,
            chain: self.chain@,
            inbound_port: self.inbound_port,
            redirect_port: self.redirect_port,
            mark: self.mark,
        }
    }
}

/// The line that redirects one protocol.
pub open spec fn redirect_line(protocol: Seq<char>, plan: OwnershipView) -> Seq<char> {
    "    "@ + protocol + " dport "@ + decimal(plan.inbound_port as nat) + " meta mark set "@
        + decimal(plan.mark as nat) + " redirect to :"@ + decimal(plan.redirect_port as nat) + "\n"@
}

/// The script of a plan.
pub open spec fn script(plan: OwnershipView) -> Seq<char> {
    "table inet "@ + plan.table + " {\n  chain "@ + plan.chain
        + " {\n    type nat hook prerouting priority dstnat; policy accept;\n"@ + redirect_line(
        "tcp"@,
        plan,
    ) + redirect_line("udp"@, plan) + "  }\n}\n"@
}

fn push_str(out: &mut Vec<char>, text: &str)
    ensures
        final(out)@ == old(out)@ + text@,
{
    let chars = to_chars(text);
    push_all(out, &chars);
}

fn push_number(out: &mut Vec<char>, value: u64)
    ensures
        final(out)@ == old(out)@ + decimal(value as nat),
{
    let chars = to_decimal(value);
    push_all(out, &chars);
}

impl NftRulePlan {
    fn redirect(&self, protocol: &str) -> (r: Vec<char>)
        ensures
            r@ == redirect_line(protocol@, self@),
    {
        let mut out = to_chars("    ");
        push_str(&mut out, protocol);
        push_str(&mut out, " dport ");
        push_number(&mut out, self.inbound_port as u64);
        push_str(&mut out, " meta mark set ");
        push_number(&mut out, self.mark as u64);
        push_str(&mut out, " redirect to :");
        push_number(&mut out, self.redirect_port as u64);
        push_str(&mut out, "\n");
        out
    }

    /// A plan that captures the port that is listened on.
    pub fn new(chain: &str, listen_port: u16, mark: u32) -> (r: Result<NftRulePlan, CaptureError>)
        ensures
            planned("blackhole"@, chain@, listen_port, listen_port, mark, r),
    {
        NftRulePlan::for_ports(chain, listen_port, listen_port, mark)
    }

    /// A plan with its own table.
    pub fn for_table(
        table: &str,
        chain: &str,
        inbound_port: u16,
        redirect_port: u16,
        mark: u32,
    ) -> (r: Result<NftRulePlan, CaptureError>)
        ensures
            planned(table@, chain@, inbound_port, redirect_port, mark, r),
    {
        if !valid_identifier(table) {
            return Err(CaptureError::Bound("table"));
        }
        if !valid_identifier(chain) {
            return Err(CaptureError::Bound("chain"));
        }
        if inbound_port == 0 || redirect_port == 0 || mark == 0 {
            return Err(CaptureError::InvalidPlan);
        }
        Ok(
            NftRulePlan {
                table: table.to_owned(),
                chain: chain.to_owned(),
                inbound_port,
                redirect_port,
                mark,
            },
        )
    }

    /// A plan that redirects one port to another.
    pub fn for_ports(chain: &str, inbound_port: u16, redirect_port: u16, mark: u32) -> (r: Result<
        NftRulePlan,
        CaptureError,
    >)
        ensures
            planned("blackhole"@, chain@, inbound_port, redirect_port, mark, r),
    {
        NftRulePlan::for_table("blackhole", chain, inbound_port, redirect_port, mark)
    }

    /// The stable script of the plan, which operators can audit before anything is installed.
    #[must_use]
    pub fn render(&self) -> (r: String)
        ensures
            r@ == script(self@),
    {
        let mut out = to_chars("table inet ");
        push_str(&mut out, self.table.as_str());
        push_str(&mut out, " {\n  chain ");
        push_str(&mut out, self.chain.as_str());
        push_str(
            &mut out,
            " {\n    type nat hook prerouting priority dstnat; policy accept;\n",
        );
        let tcp = self.redirect("tcp");
        push_all(&mut out, &tcp);
        let udp = self.redirect("udp");
        push_all(&mut out, &udp);
        push_str(&mut out, "  }\n}\n");
        to_text(&out)
    }
}

/// What planning returns: the plan, or what is wrong with its parts, the table first.
pub open spec fn planned(
    table: Seq<char>,
    chain: Seq<char>,
    inbound_port: u16,
    redirect_port: u16,
    mark: u32,
    r: Result<NftRulePlan, CaptureError>,
) -> bool {
    if !identifier(table) {
        r matches Err(CaptureError::Bound(field)) && field@ == "table"@
    } else if !identifier(chain) {
        r matches Err(CaptureError::Bound(field)) && field@ == "chain"@
    } else if inbound_port == 0 || redirect_port == 0 || mark == 0 {
        r == Err::<NftRulePlan, CaptureError>(CaptureError::InvalidPlan)
    } else {
        r matches Ok(plan) && plan@ == (OwnershipView {
            table,
            chain,
            inbound_port,
            redirect_port,
            mark,
        })
    }
}

/// A record that can be acted on.
pub open spec fn usable(record: OwnershipView) -> bool {
    identifier(record.table) && identifier(record.chain) && record.inbound_port != 0
        && record.redirect_port != 0
}

impl CaptureOwnership {
    pub fn is_valid(&self) -> (r: bool)
        ensures
            r == usable(self@),
    {
        valid_identifier(self.table.as_str()) && valid_identifier(self.chain.as_str())
            && self.inbound_port != 0 && self.redirect_port != 0
    }

    pub fn copied(&self) -> (r: CaptureOwnership)
        ensures
            r@ == self@,
    {
        CaptureOwnership {
            table: self.table.clone(),
            chain: self.chain.clone(),
            inbound_port: self.inbound_port,
            redirect_port: self.redirect_port,
            mark: self.mark,
        }
    }

    pub fn same_as(&self, other: &CaptureOwnership) -> (r: bool)
        ensures
            r == (self@ == other@),
    {
        same_str(self.table.as_str(), other.table.as_str()) && same_str(
            self.chain.as_str(),
            other.chain.as_str(),
        ) && self.inbound_port == other.inbound_port && self.redirect_port == other.redirect_port
            && self.mark == other.mark
    }
}

/// A plan that a backend can install.
pub trait CapturePlan {
    /// The record that marks the plan's rules as owned.
    spec fn owner(&self) -> OwnershipView;

    fn render(&self) -> String;

    fn ownership(&self) -> (r: CaptureOwnership)
        ensures
            r@ == self.owner(),
    ;
}

impl CapturePlan for NftRulePlan {
    open spec fn owner(&self) -> OwnershipView {
        self@
    }

    fn render(&self) -> (r: String)
        ensures
            r@ == script(self@),
    {
        NftRulePlan::render(self)
    }

    fn ownership(&self) -> (r: CaptureOwnership) {
        CaptureOwnership {
            table: self.table.clone(),
            chain: self.chain.clone(),
            inbound_port: self.inbound_port,
            redirect_port: self.redirect_port,
            mark: self.mark,
        }
    }
}

/// The error of an outcome, if it is one.
pub open spec fn failure_of(result: Result<(), String>) -> Option<String> {
    match result {
        Ok(_) => None,
        Err(error) => Some(error),
    }
}

/// The privileged capability that changes firewall rules. What a call may come to, and leave
/// behind, is up to an implementation; nothing is excluded unless it says so.
pub trait RuleBackend {
    type Plan: CapturePlan;

    /// Whether installing the plan may fail so, or not at all, and leave `after`.
    open spec fn installs(&self, plan: &Self::Plan, failure: Option<String>, after: &Self) -> bool {
        true
    }

    /// Whether verifying the plan may fail so, or not at all, and leave `after`.
    open spec fn verifies(&self, plan: &Self::Plan, failure: Option<String>, after: &Self) -> bool {
        true
    }

    /// Whether removing the plan may fail so, or not at all, and leave `after`.
    open spec fn removes(&self, plan: &Self::Plan, failure: Option<String>, after: &Self) -> bool {
        true
    }

    fn install(&mut self, plan: &Self::Plan) -> (r: Result<(), String>)
        ensures
            old(self).installs(plan, failure_of(r), final(self)),
    ;

    fn verify(&mut self, plan: &Self::Plan) -> (r: Result<(), String>)
        ensures
            old(self).verifies(plan, failure_of(r), final(self)),
    ;

    fn remove(&mut self, plan: &Self::Plan) -> (r: Result<(), String>)
        ensures
            old(self).removes(plan, failure_of(r), final(self)),
    ;
}

#[derive(Clone, Copy, Debug, PartialEq, Eq, Structural)]
pub enum InstallState {
    Uninstalled,
    Installing,
    Installed,
    Failed,
}

/// The value of an optional record.
pub open spec fn record_view(record: Option<CaptureOwnership>) -> Option<OwnershipView> {
    match record {
        Some(value) => Some(value@),
        None => None,
    }
}

/// What a store answers: the record that it holds, or why it cannot tell.
pub type Loaded = Result<Option<OwnershipView>, String>;

pub open spec fn loaded_view(loaded: Result<Option<CaptureOwnership>, String>) -> Loaded {
    match loaded {
        Ok(record) => Ok(record_view(record)),
        Err(error) => Err(error),
    }
}

/// Where the ownership record is kept. A store may fail, and may be changed by others: nothing is
/// excluded unless an implementation says so.
pub trait OwnershipStore {
    /// Whether the store may answer so.
    open spec fn loads(&self, loaded: Loaded) -> bool {
        true
    }

    /// Whether saving the record may fail so, or not at all, and leave `after`.
    open spec fn saves(&self, record: OwnershipView, failure: Option<String>, after: &Self) -> bool {
        true
    }

    /// Whether clearing the record may fail so, or not at all, and leave `after`.
    open spec fn clears(&self, failure: Option<String>, after: &Self) -> bool {
        true
    }

    fn load(&self) -> (r: Result<Option<CaptureOwnership>, String>)
        ensures
            self.loads(loaded_view(r)),
    ;

    fn save(&mut self, ownership: &CaptureOwnership) -> (r: Result<(), String>)
        ensures
            old(self).saves(ownership@, failure_of(r), final(self)),
    ;

    fn clear(&mut self) -> (r: Result<(), String>)
        ensures
            old(self).clears(failure_of(r), final(self)),
    ;
}

/// A store that lasts as long as the process.
#[derive(Debug)]
pub struct MemoryOwnershipStore {
    pub ownership: Option<CaptureOwnership>,
}

impl View for MemoryOwnershipStore {
    type V = Option<OwnershipView>;

    open spec fn view(&self) -> Option<OwnershipView> {
        record_view(self.ownership)
    }
}

impl Default for MemoryOwnershipStore {
    fn default() -> (r: MemoryOwnershipStore)
        ensures
            r@ is None,
    {
        MemoryOwnershipStore { ownership: None }
    }
}

impl OwnershipStore for MemoryOwnershipStore {
    /// It answers with the record that was saved last and not cleared since.
    open spec fn loads(&self, loaded: Loaded) -> bool {
        loaded == Ok::<_, String>(self@)
    }

    /// It never fails.
    open spec fn saves(&self, record: OwnershipView, failure: Option<String>, after: &Self) -> bool {
        failure is None && after@ == Some(record)
    }

    /// It never fails.
    open spec fn clears(&self, failure: Option<String>, after: &Self) -> bool {
        failure is None && after@ is None
    }

    /// Gives back the record that was saved last and not cleared since.
    fn load(&self) -> (r: Result<Option<CaptureOwnership>, String>)
        ensures
            r is Ok,
            record_view(r->Ok_0) == self@,
    {
        match &self.ownership {
            Some(record) => Ok(Some(record.copied())),
            None => Ok(None),
        }
    }

    fn save(&mut self, ownership: &CaptureOwnership) -> (r: Result<(), String>)
        ensures
            r is Ok,
            final(self)@ == Some(ownership@),
    {
        self.ownership = Some(ownership.copied());
        Ok(())
    }

    fn clear(&mut self) -> (r: Result<(), String>)
        ensures
            r is Ok,
            final(self)@ is None,
    {
        self.ownership = None;
        Ok(())
    }
}

// ---- the journal ---------------------------------------------------------------------

/// A line-oriented journal in a file. A record that is incomplete or not usable counts as
/// absent, never as permission to remove firewall state.
#[derive(Clone, Debug)]
pub struct FileOwnershipStore {
    pub path: String,
}

/// The journal of a record: one field in each line.
pub open spec fn journal(record: OwnershipView) -> Seq<char> {
    record.table + seq!['\n'] + record.chain + seq!['\n'] + decimal(record.inbound_port as nat)
        + seq!['\n'] + decimal(record.redirect_port as nat) + seq!['\n'] + decimal(
        record.mark as nat,
    ) + seq!['\n']
}

/// The record that a journal holds. A text whose last line is not ended was cut off, and holds
/// none.
pub open spec fn journal_record(text: Seq<char>) -> Option<OwnershipView> {
    let l = lines(text);
    if text.len() > 0 && text.last() == '\n' && l.len() == 5 && unsigned(l[2], 65535) is Some && unsigned(l[3], 65535) is Some && unsigned(
        l[4],
        u32::MAX as nat,
    ) is Some {
        let record = OwnershipView {
            table: l[0],
            chain: l[1],
            inbound_port: unsigned(l[2], 65535)->0 as u16,
            redirect_port: unsigned(l[3], 65535)->0 as u16,
            mark: unsigned(l[4], u32::MAX as nat)->0 as u32,
        };
        if usable(record) {
            Some(record)
        } else {
            None
        }
    } else {
        None
    }
}

impl FileOwnershipStore {
    pub fn new(path: &str) -> (r: FileOwnershipStore)
        ensures
            r.path@ == path@,
    {
        FileOwnershipStore { path: path.to_owned() }
    }

    /// The journal of a record.
    pub fn encode(ownership: &CaptureOwnership) -> (r: String)
        ensures
            r@ == journal(ownership@),
    {
        let mut out = to_chars(ownership.table.as_str());
        let ghost g = out@;
        out.push('\n');
        assert(out@ =~= g + seq!['\n']);
        push_str(&mut out, ownership.chain.as_str());
        let ghost g = out@;
        out.push('\n');
        assert(out@ =~= g + seq!['\n']);
        push_number(&mut out, ownership.inbound_port as u64);
        let ghost g = out@;
        out.push('\n');
        assert(out@ =~= g + seq!['\n']);
        push_number(&mut out, ownership.redirect_port as u64);
        let ghost g = out@;
        out.push('\n');
        assert(out@ =~= g + seq!['\n']);
        push_number(&mut out, ownership.mark as u64);
        let ghost g = out@;
        out.push('\n');
        assert(out@ =~= g + seq!['\n']);
        to_text(&out)
    }

    /// Reads a journal.
    pub fn decode(value: &str) -> (r: Option<CaptureOwnership>)
        ensures
            r is Some <==> journal_record(value@) is Some,
            r is Some ==> r->0@ == journal_record(value@)->0,
    {
        let chars = to_chars(value);
        if chars.len() == 0 || chars[chars.len() - 1] != '\n' {
            return None;
        }
        let l = split_lines(&chars);
        let ghost all = lines(value@);
        if l.len() != 5 {
            return None;
        }
        assert(all[0] == l[0]@ && all[1] == l[1]@ && all[2] == l[2]@ && all[3] == l[3]@ && all[4]
            == l[4]@);
        let inbound = parse_unsigned(&l[2], 65535);
        let redirect = parse_unsigned(&l[3], 65535);
        let mark = parse_unsigned(&l[4], u32::MAX as u64);
        match (inbound, redirect, mark) {
            (Some(inbound), Some(redirect), Some(mark)) => {
                let record = CaptureOwnership {
                    table: to_text(&l[0]),
                    chain: to_text(&l[1]),
                    inbound_port: inbound as u16,
                    redirect_port: redirect as u16,
                    mark: mark as u32,
                };
                if record.is_valid() {
                    Some(record)
                } else {
                    None
                }
            },
            _ => None,
        }
    }

    /// A journal needs a path.
    pub fn validate_path(&self) -> (r: Result<(), String>)
        ensures
            r is Ok <==> self.path@.len() > 0,
            r is Err ==> r->Err_0@ == "ownership journal path is empty"@,
    {
        if self.path.as_str().is_empty() {
            Err("ownership journal path is empty".to_owned())
        } else {
            Ok(())
        }
    }
}

/// The digits of a number spell the number.
pub proof fn decimal_spells(n: nat)
    ensures
        decimal(n).len() > 0,
        all_digits(decimal(n)),
        number(decimal(n), 10) == n,
    decreases n,
{
    if n >= 10 {
        decimal_spells(n / 10);
        let front = decimal(n / 10);
        let all = decimal(n);
        assert(all.drop_last() =~= front);
        assert(all.last() == digit_char(n % 10));
        assert forall|i: int| 0 <= i < all.len() implies is_digit(#[trigger] all[i]) by {
            if i < front.len() {
                assert(all[i] == front[i]);
                assert(is_digit(front[i]));
            }
        }
    } else {
        let all = decimal(n);
        assert(all =~= seq![digit_char(n)]);
        assert(all.drop_last() =~= Seq::<char>::empty());
        assert(number(all.drop_last(), 10) == 0);
    }
}

/// A number that is written in decimal reads as itself.
pub proof fn decimal_round_trip(n: nat, max: nat)
    requires
        n <= max,
    ensures
        unsigned(decimal(n), max) == Some(n),
{
    decimal_spells(n);
    assert(is_digit(decimal(n)[0]));
}

spec fn no_break(s: Seq<char>) -> bool {
    forall|i: int| 0 <= i < s.len() ==> #[trigger] s[i] != '\n' && s[i] != '\r'
}

// Text without a newline goes to the last piece; a newline starts the next one.
proof fn split_extends(s: Seq<char>, piece: Seq<char>)
    requires
        no_break(piece),
    ensures
        split(s + piece, '\n') == split(s, '\n').update(
            split(s, '\n').len() - 1,
            split(s, '\n').last() + piece,
        ),
        split(s, '\n').len() > 0,
    decreases piece.len(),
{
    crate::text::split_nonempty(s, '\n');
    let before = split(s, '\n');
    if piece.len() == 0 {
        assert(s + piece =~= s);
        assert(before.last() + piece =~= before.last());
        assert(before.update(before.len() - 1, before.last()) =~= before);
    } else {
        let front = piece.drop_last();
        split_extends(s, front);
        let whole = s + piece;
        assert(whole.drop_last() =~= s + front);
        assert(whole.last() == piece.last());
        assert(piece[piece.len() - 1] != '\n');
        let prior = before.update(before.len() - 1, before.last() + front);
        assert(split(whole, '\n') == prior.update(
            prior.len() - 1,
            prior.last().push(piece.last()),
        ));
        assert(prior.last() == before.last() + front);
        assert((before.last() + front).push(piece.last()) =~= before.last() + piece);
        assert(split(whole, '\n') =~= before.update(before.len() - 1, before.last() + piece));
    }
}

proof fn split_line(s: Seq<char>, done: Seq<Seq<char>>, line: Seq<char>)
    requires
        split(s, '\n') == done.push(Seq::empty()),
        no_break(line),
    ensures
        split(s + line + seq!['\n'], '\n') == done.push(line).push(Seq::empty()),
{
    split_extends(s, line);
    let t = s + line;
    assert(split(s, '\n').last() + line =~= line);
    assert(split(t, '\n') =~= done.push(line));
    let u = s + line + seq!['\n'];
    assert(u.drop_last() =~= t);
    assert(u.last() == '\n');
}

proof fn identifier_has_no_break(s: Seq<char>)
    requires
        identifier(s),
    ensures
        no_break(s),
{
    assert forall|i: int| 0 <= i < s.len() implies #[trigger] s[i] != '\n' && s[i] != '\r' by {
        assert(alphanumeric(s[i]) || s[i] == '_');
    }
}

proof fn digits_have_no_break(n: nat)
    ensures
        no_break(decimal(n)),
{
    decimal_spells(n);
    assert forall|i: int| 0 <= i < decimal(n).len() implies #[trigger] decimal(n)[i] != '\n'
        && decimal(n)[i] != '\r' by {
        assert(is_digit(decimal(n)[i]));
    }
}

/// A usable record that is written to the journal is read back unchanged; its lines are the table,
/// the chain, the captured port, the port that it goes to, and the mark.
pub proof fn journal_round_trip(record: OwnershipView)
    requires
        usable(record),
    ensures
        journal_record(journal(record)) == Some(record),
        lines(journal(record)) == seq![
            record.table,
            record.chain,
            decimal(record.inbound_port as nat),
            decimal(record.redirect_port as nat),
            decimal(record.mark as nat),
        ],
{
    let p = decimal(record.inbound_port as nat);
    let q = decimal(record.redirect_port as nat);
    let m = decimal(record.mark as nat);
    identifier_has_no_break(record.table);
    identifier_has_no_break(record.chain);
    digits_have_no_break(record.inbound_port as nat);
    digits_have_no_break(record.redirect_port as nat);
    digits_have_no_break(record.mark as nat);
    let none = Seq::<char>::empty();
    let d0 = Seq::<Seq<char>>::empty();
    let d1 = d0.push(record.table);
    let d2 = d1.push(record.chain);
    let d3 = d2.push(p);
    let d4 = d3.push(q);
    let d5 = d4.push(m);
    assert(split(none, '\n') =~= d0.push(none));
    split_line(none, d0, record.table);
    let s1 = none + record.table + seq!['\n'];
    split_line(s1, d1, record.chain);
    let s2 = s1 + record.chain + seq!['\n'];
    split_line(s2, d2, p);
    let s3 = s2 + p + seq!['\n'];
    split_line(s3, d3, q);
    let s4 = s3 + q + seq!['\n'];
    split_line(s4, d4, m);
    let s5 = s4 + m + seq!['\n'];
    assert(s5 =~= journal(record));
    let pieces = split(journal(record), '\n');
    assert(pieces == d5.push(none));
    assert(pieces.drop_last() =~= d5);
    assert(pieces.last() == none);
    let kept = d5.map_values(|line: Seq<char>| without_return(line));
    assert(lines(journal(record)) == kept);
    assert forall|i: int| 0 <= i < 5 implies kept[i] == d5[i] by {
        let line = d5[i];
        assert(no_break(line));
        assert(line.len() > 0 ==> line[line.len() - 1] != '\r');
    }
    decimal_round_trip(record.inbound_port as nat, 65535);
    decimal_round_trip(record.redirect_port as nat, 65535);
    decimal_round_trip(record.mark as nat, u32::MAX as nat);
    assert(kept[0] == record.table && kept[1] == record.chain && kept[2] == p && kept[3] == q
        && kept[4] == m);
    assert(kept =~= seq![record.table, record.chain, p, q, m]);
}

// ---- the controller ------------------------------------------------------------------

/// Installs and removes capture rules as transactions.
pub struct CaptureController<B, S> {
    pub backend: B,
    pub store: S,
    pub state: InstallState,
}

impl<B: RuleBackend> CaptureController<B, MemoryOwnershipStore> {
    /// A controller whose ownership record lasts as long as the process.
    #[must_use]
    pub fn new(backend: B) -> (r: CaptureController<B, MemoryOwnershipStore>)
        ensures
            r.backend == backend,
            r.store@ is None,
            r.state == InstallState::Uninstalled,
    {
        CaptureController::with_store(backend, MemoryOwnershipStore::default())
    }
}

/// An installation that went through: the rules were put in place, verified and recorded, in this
/// order.
pub open spec fn installed<B: RuleBackend, S: OwnershipStore>(
    before: CaptureController<B, S>,
    after: CaptureController<B, S>,
    plan: &B::Plan,
) -> bool {
    &&& after.state == InstallState::Installed
    &&& before.store.saves(plan.owner(), None, &after.store)
    &&& exists|b: B|
        #[trigger] before.backend.installs(plan, None, &b) && b.verifies(plan, None, &after.backend)
}

/// An installation that failed: the planned rules were removed again, once and last, and the error
/// is that of the step that failed. No later step was taken.
pub open spec fn rolled_back<B: RuleBackend, S: OwnershipStore>(
    before: CaptureController<B, S>,
    after: CaptureController<B, S>,
    plan: &B::Plan,
    error: String,
    rollback: Result<(), String>,
) -> bool {
    &&& after.state == InstallState::Failed
    &&& {
        ||| {
            &&& after.store == before.store
            &&& exists|b: B|
                #[trigger] before.backend.installs(plan, Some(error), &b) && b.removes(
                    plan,
                    failure_of(rollback),
                    &after.backend,
                )
        }
        ||| {
            &&& after.store == before.store
            &&& exists|b: B, c: B|
                #[trigger] before.backend.installs(plan, None, &b) && #[trigger] b.verifies(
                    plan,
                    Some(error),
                    &c,
                ) && c.removes(plan, failure_of(rollback), &after.backend)
        }
        ||| {
            &&& before.store.saves(plan.owner(), Some(error), &after.store)
            &&& exists|b: B, c: B|
                #[trigger] before.backend.installs(plan, None, &b) && #[trigger] b.verifies(
                    plan,
                    None,
                    &c,
                ) && c.removes(plan, failure_of(rollback), &after.backend)
        }
    }
}

/// What becomes of a cleanup, by the answer of the store.
pub open spec fn cleaned_up<B: RuleBackend, S: OwnershipStore>(
    before: CaptureController<B, S>,
    after: CaptureController<B, S>,
    plan: &B::Plan,
    loaded: Loaded,
    r: Result<(), CaptureError>,
) -> bool {
    match loaded {
        Err(error) => {
            &&& after == before
            &&& r == Err::<(), CaptureError>(CaptureError::Backend(error))
        },
        Ok(record) => if record != Some(plan.owner()) {
            &&& after == before
            &&& r == Err::<(), CaptureError>(CaptureError::OwnershipMismatch)
        } else {
            ||| {
                &&& r is Ok
                &&& before.backend.removes(plan, None, &after.backend)
                &&& before.store.clears(None, &after.store)
                &&& after.state == InstallState::Uninstalled
            }
            ||| {
                &&& r matches Err(CaptureError::Backend(error))
                &&& before.backend.removes(plan, Some(error), &after.backend)
                &&& after.store == before.store
                &&& after.state == before.state
            }
            ||| {
                &&& r matches Err(CaptureError::Backend(error))
                &&& before.backend.removes(plan, None, &after.backend)
                &&& before.store.clears(Some(error), &after.store)
                &&& after.state == before.state
            }
        },
    }
}

/// What becomes of a recovery, by the answer of the store.
pub open spec fn recovered<B: RuleBackend, S: OwnershipStore>(
    before: CaptureController<B, S>,
    after: CaptureController<B, S>,
    plan: &B::Plan,
    loaded: Loaded,
    r: Result<InstallState, CaptureError>,
) -> bool {
    match loaded {
        Err(error) => {
            &&& after == before
            &&& r == Err::<InstallState, CaptureError>(CaptureError::Backend(error))
        },
        Ok(record) => if record != Some(plan.owner()) {
            &&& after == before
            &&& r == Ok::<InstallState, CaptureError>(before.state)
        } else {
            ||| {
                &&& r == Ok::<InstallState, CaptureError>(InstallState::Installed)
                &&& after.state == InstallState::Installed
                &&& before.backend.verifies(plan, None, &after.backend)
                &&& after.store == before.store
            }
            ||| {
                &&& r == Ok::<InstallState, CaptureError>(InstallState::Uninstalled)
                &&& after.state == InstallState::Uninstalled
                &&& missing(before.backend, after.backend, plan)
                &&& before.store.clears(None, &after.store)
            }
            ||| {
                &&& r matches Err(CaptureError::Backend(error))
                &&& after.state == before.state
                &&& missing(before.backend, after.backend, plan)
                &&& before.store.clears(Some(error), &after.store)
            }
        },
    }
}

/// The rules of a plan were looked at, and not found in place.
pub open spec fn missing<B: RuleBackend>(before: B, after: B, plan: &B::Plan) -> bool {
    exists|error: String| #[trigger] before.verifies(plan, Some(error), &after)
}

/// What becomes of a cleanup once the store has answered: the rules are removed only where the
/// record is exactly that of the plan.
pub fn cleanup_allowed(loaded: Result<Option<CaptureOwnership>, String>, owner: &CaptureOwnership) -> (r:
    Result<(), CaptureError>)
    ensures
        match loaded {
            Err(error) => r == Err::<(), CaptureError>(CaptureError::Backend(error)),
            Ok(Some(record)) => if record@ == owner@ {
                r is Ok
            } else {
                r == Err::<(), CaptureError>(CaptureError::OwnershipMismatch)
            },
            Ok(None) => r == Err::<(), CaptureError>(CaptureError::OwnershipMismatch),
        },
{
    match loaded {
        Err(error) => Err(CaptureError::Backend(error)),
        Ok(Some(record)) => {
            if record.same_as(owner) {
                Ok(())
            } else {
                Err(CaptureError::OwnershipMismatch)
            }
        },
        Ok(None) => Err(CaptureError::OwnershipMismatch),
    }
}

/// Whether recovery may look at the rules: only where the record is exactly that of the plan.
pub fn recovery_due(loaded: Result<Option<CaptureOwnership>, String>, owner: &CaptureOwnership) -> (r:
    Result<bool, CaptureError>)
    ensures
        match loaded {
            Err(error) => r == Err::<bool, CaptureError>(CaptureError::Backend(error)),
            Ok(Some(record)) => r == Ok::<bool, CaptureError>(record@ == owner@),
            Ok(None) => r == Ok::<bool, CaptureError>(false),
        },
{
    match loaded {
        Err(error) => Err(CaptureError::Backend(error)),
        Ok(Some(record)) => Ok(record.same_as(owner)),
        Ok(None) => Ok(false),
    }
}

impl<B: RuleBackend, S: OwnershipStore> CaptureController<B, S> {
    #[must_use]
    pub fn with_store(backend: B, store: S) -> (r: CaptureController<B, S>)
        ensures
            r.backend == backend,
            r.store == store,
            r.state == InstallState::Uninstalled,
    {
        CaptureController { backend, store, state: InstallState::Uninstalled }
    }

    /// Installs, verifies and records the plan's rules. Nothing is done where they are
    /// installed already. A failure at any step removes the planned rules again, once and
    /// last, and is reported together with the outcome of that removal.
    pub fn install(&mut self, plan: &B::Plan) -> (r: Result<(), CaptureError>)
        ensures
            old(self).state == InstallState::Installed ==> r is Ok && *final(self) == *old(self),
            old(self).state != InstallState::Installed ==> match r {
                Ok(()) => installed(*old(self), *final(self), plan),
                Err(CaptureError::Transaction { error, rollback }) => rolled_back(
                    *old(self),
                    *final(self),
                    plan,
                    error,
                    rollback,
                ),
                Err(_) => false,
            },
    {
        if self.state == InstallState::Installed {
            return Ok(());
        }
        self.state = InstallState::Installing;
        let first = self.backend.install(plan);
        let ghost b = self.backend;
        assert(old(self).backend.installs(plan, failure_of(first), &b));
        match first {
            Err(error) => {
                let rollback = self.backend.remove(plan);
                self.state = InstallState::Failed;
                return Err(CaptureError::Transaction { error, rollback });
            },
            Ok(()) => {},
        }
        let second = self.backend.verify(plan);
        let ghost c = self.backend;
        assert(b.verifies(plan, failure_of(second), &c));
        match second {
            Err(error) => {
                let rollback = self.backend.remove(plan);
                self.state = InstallState::Failed;
                return Err(CaptureError::Transaction { error, rollback });
            },
            Ok(()) => {},
        }
        match self.store.save(&plan.ownership()) {
            Err(error) => {
                let rollback = self.backend.remove(plan);
                self.state = InstallState::Failed;
                return Err(CaptureError::Transaction { error, rollback });
            },
            Ok(()) => {},
        }
        self.state = InstallState::Installed;
        Ok(())
    }

    /// Removes the plan's rules and the record. Nothing is done where nothing is installed.
    /// The rules are touched at most once, only to remove them, and only where the record is
    /// exactly that of the plan.
    pub fn cleanup(&mut self, plan: &B::Plan) -> (r: Result<(), CaptureError>)
        ensures
            old(self).state == InstallState::Uninstalled ==> r is Ok && *final(self) == *old(self),
            old(self).state != InstallState::Uninstalled ==> exists|loaded: Loaded|
                #[trigger] old(self).store.loads(loaded) && cleaned_up(
                    *old(self),
                    *final(self),
                    plan,
                    loaded,
                    r,
                ),
    {
        if self.state == InstallState::Uninstalled {
            return Ok(());
        }
        let answer = self.store.load();
        let ghost loaded = loaded_view(answer);
        assert(old(self).store.loads(loaded));
        let owner = plan.ownership();
        match cleanup_allowed(answer, &owner) {
            Err(error) => {
                return Err(error);
            },
            Ok(()) => {},
        }
        match self.backend.remove(plan) {
            Err(error) => {
                return Err(CaptureError::Backend(error));
            },
            Ok(()) => {},
        }
        match self.store.clear() {
            Err(error) => {
                return Err(CaptureError::Backend(error));
            },
            Ok(()) => {},
        }
        self.state = InstallState::Uninstalled;
        Ok(())
    }

    /// Reconciles after a crash or a reboot. Only an exact ownership record leads to a
    /// verification, and nothing is ever installed or removed.
    pub fn recover(&mut self, plan: &B::Plan) -> (r: Result<InstallState, CaptureError>)
        ensures
            exists|loaded: Loaded|
                #[trigger] old(self).store.loads(loaded) && recovered(
                    *old(self),
                    *final(self),
                    plan,
                    loaded,
                    r,
                ),
    {
        let answer = self.store.load();
        let ghost loaded = loaded_view(answer);
        assert(old(self).store.loads(loaded));
        let owner = plan.ownership();
        match recovery_due(answer, &owner) {
            Err(error) => {
                return Err(error);
            },
            Ok(due) => {
                if !due {
                    return Ok(self.state);
                }
            },
        }
        let verified = self.backend.verify(plan);
        assert(old(self).backend.verifies(plan, failure_of(verified), &self.backend));
        match verified {
            Ok(()) => {
                self.state = InstallState::Installed;
            },
            Err(_) => {
                match self.store.clear() {
                    Err(error) => {
                        return Err(CaptureError::Backend(error));
                    },
                    Ok(()) => {},
                }
                self.state = InstallState::Uninstalled;
            },
        }
        Ok(self.state)
    }

    #[must_use]
    pub fn status(&self) -> (r: InstallState)
        ensures
            r == self.state,
    {
        self.state
    }

    pub fn backend(&self) -> (r: &B)
        ensures
            *r == self.backend,
    {
        &self.backend
    }
}

/// A failed installation in words. `reason` is why the rollback failed, quoted, where it did.
pub fn transaction_text(error: &str, reason: Option<&str>) -> (r: String)
    ensures
        r@ == "capture verification failed: "@ + error@ + "; rollback: "@ + (match reason {
            None => "Ok(())"@,
            Some(text) => "Err("@ + text@ + ")"@,
        }),
{
    let head = joined("capture verification failed: ", error);
    let middle = joined(head.as_str(), "; rollback: ");
    match reason {
        None => joined(middle.as_str(), "Ok(())"),
        Some(text) => {
            let opened = joined("Err(", text);
            let outcome = joined(opened.as_str(), ")");
            joined(middle.as_str(), outcome.as_str())
        },
    }
}

impl CaptureError {
    /// The error in words; the outcome of a rollback is told as done or with its reason, quoted.
    pub fn message(&self) -> (r: String)
        ensures
            r@ == match *self {
                CaptureError::Bound(field) => field@ + " exceeds its bounded capture limit"@,
                CaptureError::InvalidPlan => "capture plan has a zero port or mark"@,
                CaptureError::Backend(error) => "capture backend: "@ + error@,
                CaptureError::Transaction { error, rollback } => "capture verification failed: "@
                    + error@ + "; rollback: "@ + (match rollback {
                    Ok(()) => "Ok(())"@,
                    Err(reason) => "Err("@ + debug_text(reason@) + ")"@,
                }),
                CaptureError::OwnershipMismatch =>
                    "capture ownership record does not match the plan"@,
            },
    {
        match self {
            CaptureError::Bound(field) => joined(field, " exceeds its bounded capture limit"),
            CaptureError::InvalidPlan => "capture plan has a zero port or mark".to_owned(),
            CaptureError::Backend(error) => joined("capture backend: ", error.as_str()),
            CaptureError::Transaction { error, rollback } => {
                match rollback {
                    Ok(_) => transaction_text(error.as_str(), None),
                    Err(reason) => {
                        let told = quoted(reason.as_str());
                        transaction_text(error.as_str(), Some(told.as_str()))
                    },
                }
            },
            CaptureError::OwnershipMismatch =>
                "capture ownership record does not match the plan".to_owned(),
        }
    }
}

// ---- the commands of the nft program --------------------------------------------------

/// The privileged nft program. Making one is harmless; it is run by the caller, with the
/// arguments that are given here.
#[derive(Clone, Debug)]
pub struct NftCommandBackend {
    pub program: String,
}

/// One run of the program: its arguments, and what it reads.
#[derive(Clone, Debug, PartialEq, Eq)]
pub struct NftCommand {
    pub args: Vec<String>,
    pub input: Option<String>,
}

impl NftCommandBackend {
    #[must_use]
    pub fn new(program: &str) -> (r: NftCommandBackend)
        ensures
            r.program@ == program@,
    {
        NftCommandBackend { program: program.to_owned() }
    }

    /// Installs the script of a plan.
    pub fn install_command(&self, plan: &NftRulePlan) -> (r: NftCommand)
        ensures
            crate::text::texts(r.args@) == seq!["-f"@, "-"@],
            r.input is Some,
            r.input->0@ == script(plan@),
    {
        let mut args: Vec<String> = Vec::new();
        args.push("-f".to_owned());
        args.push("-".to_owned());
        assert(crate::text::texts(args@) =~= seq!["-f"@, "-"@]);
        NftCommand { args, input: Some(plan.render()) }
    }

    /// Lists the table of a plan.
    pub fn verify_command(&self, plan: &NftRulePlan) -> (r: NftCommand)
        ensures
            crate::text::texts(r.args@) == seq!["list"@, "table"@, "inet"@, plan@.table],
            r.input is None,
    {
        let mut args: Vec<String> = Vec::new();
        args.push("list".to_owned());
        args.push("table".to_owned());
        args.push("inet".to_owned());
        args.push(plan.table.clone());
        assert(crate::text::texts(args@) =~= seq!["list"@, "table"@, "inet"@, plan@.table]);
        NftCommand { args, input: None }
    }

    /// Deletes the chain of a plan and leaves the table, which others may use.
    pub fn remove_command(&self, plan: &NftRulePlan) -> (r: NftCommand)
        ensures
            crate::text::texts(r.args@) == seq![
                "delete"@,
                "chain"@,
                "inet"@,
                plan@.table,
                plan@.chain,
            ],
            r.input is None,
    {
        let mut args: Vec<String> = Vec::new();
        args.push("delete".to_owned());
        args.push("chain".to_owned());
        args.push("inet".to_owned());
        args.push(plan.table.clone());
        args.push(plan.chain.clone());
        assert(crate::text::texts(args@) =~= seq![
            "delete"@,
            "chain"@,
            "inet"@,
            plan@.table,
            plan@.chain,
        ]);
        NftCommand { args, input: None }
    }
}

// ---- laws ----------------------------------------------------------------------------

/// Whether a name has one to 32 letters, digits and underscores.
pub open spec fn plain_name(name: Seq<char>) -> bool {
    1 <= name.len() <= 32 && forall|i: int|
        0 <= i < name.len() ==> 'a' <= (#[trigger] name[i]) && name[i] <= 'z' || 'A' <= name[i]
            && name[i] <= 'Z' || '0' <= name[i] && name[i] <= '9' || name[i] == '_'
}

/// A plan is made where both names are plain and neither a port nor the mark is zero, and says what
/// was asked for; a record that can be acted on has the same names and ports.
pub proof fn plans_are_made_of_valid_parts(
    table: Seq<char>,
    chain: Seq<char>,
    inbound_port: u16,
    redirect_port: u16,
    mark: u32,
    r: Result<NftRulePlan, CaptureError>,
)
    requires
        planned(table, chain, inbound_port, redirect_port, mark, r),
    ensures
        r is Ok <==> plain_name(table) && plain_name(chain) && inbound_port > 0 && redirect_port > 0
            && mark > 0,
        r matches Ok(plan) ==> plan@.table == table && plan@.chain == chain && plan@.inbound_port
            == inbound_port && plan@.redirect_port == redirect_port && plan@.mark == mark && usable(
            plan@,
        ),
        usable(
            OwnershipView { table, chain, inbound_port, redirect_port, mark },
        ) <==> plain_name(table) && plain_name(chain) && inbound_port > 0 && redirect_port > 0,
{
    names_are_plain(table);
    names_are_plain(chain);
}

proof fn names_are_plain(name: Seq<char>)
    ensures
        identifier(name) <==> plain_name(name),
{
    if identifier(name) {
        assert forall|i: int| 0 <= i < name.len() implies 'a' <= (#[trigger] name[i]) && name[i]
            <= 'z' || 'A' <= name[i] && name[i] <= 'Z' || '0' <= name[i] && name[i] <= '9'
            || name[i] == '_' by {
            assert(alphanumeric(name[i]) || name[i] == '_');
        }
    }
}

/// A cleanup touches nothing unless the store answers with exactly the record of the plan. One that
/// succeeds has removed the rules and cleared the record; one that fails to do so is not taken for
/// done.
pub proof fn cleanups_need_the_record<B: RuleBackend, S: OwnershipStore>(
    before: CaptureController<B, S>,
    after: CaptureController<B, S>,
    plan: &B::Plan,
    loaded: Loaded,
    r: Result<(), CaptureError>,
)
    requires
        cleaned_up(before, after, plan, loaded, r),
    ensures
        loaded != Ok::<Option<OwnershipView>, String>(Some(plan.owner())) ==> after == before && r
            is Err,
        r is Ok ==> after.state == InstallState::Uninstalled && before.backend.removes(
            plan,
            None,
            &after.backend,
        ) && before.store.clears(None, &after.store),
        r is Err ==> after.state == before.state,
{
}

/// A recovery touches nothing unless the store answers with exactly the record of the plan. The
/// rules count as installed only where they were verified, and as gone only where they were not
/// found; then the record is cleared.
pub proof fn recoveries_need_the_record<B: RuleBackend, S: OwnershipStore>(
    before: CaptureController<B, S>,
    after: CaptureController<B, S>,
    plan: &B::Plan,
    loaded: Loaded,
    r: Result<InstallState, CaptureError>,
)
    requires
        recovered(before, after, plan, loaded, r),
    ensures
        loaded != Ok::<Option<OwnershipView>, String>(Some(plan.owner())) ==> after == before,
        loaded == Ok::<Option<OwnershipView>, String>(Some(plan.owner())) ==> {
            &&& r == Ok::<InstallState, CaptureError>(InstallState::Installed) ==> after.state
                == InstallState::Installed && before.backend.verifies(plan, None, &after.backend)
                && after.store == before.store
            &&& r == Ok::<InstallState, CaptureError>(InstallState::Uninstalled) ==> after.state
                == InstallState::Uninstalled && before.store.clears(None, &after.store)
            &&& r matches Ok(state) ==> state == InstallState::Installed || state
                == InstallState::Uninstalled
            &&& r is Err ==> after.state == before.state
        },
{
}

/// An installation that went through is recorded as the plan's, and one that failed is not taken for
/// installed.
pub proof fn installations_are_recorded<B: RuleBackend>(
    before: CaptureController<B, MemoryOwnershipStore>,
    after: CaptureController<B, MemoryOwnershipStore>,
    plan: &B::Plan,
    error: String,
    rollback: Result<(), String>,
)
    ensures
        installed(before, after, plan) ==> after.state == InstallState::Installed && after.store@
            == Some(plan.owner()),
        rolled_back(before, after, plan, error, rollback) ==> after.state == InstallState::Failed
            && after.store == before.store,
{
}

/// The name of an interface has one to fifteen characters, all of them ASCII.
pub proof fn interfaces_have_short_names(name: Seq<char>)
    requires
        vstd::utf8::is_ascii_chars(name),
    ensures
        interface_name(name) <==> 1 <= byte_len(name) <= 15,
{
}

} // verus!
