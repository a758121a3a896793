//! The plain list of blocked domains, which counts where no rules are configured.
use vstd::prelude::*;
use vstd::string::*;

use crate::names::{below, dns_name, is_below, normal, normal_is_idempotent, normalize_chars,
    valid_dns_name};
use crate::policy::{ErrorView, PolicyError, MAX_RULES};
use crate::text::{decimal, ending_in_number, joined, same, texts, to_chars, to_text};

verus! {

pub open spec fn legacy_error(reason: Seq<char>) -> ErrorView {
    ErrorView::InvalidProfile { name: "<legacy-domains>"@, reason }
}

/// The domains in normal form; the first that is no name is an error.
pub open spec fn checked_domains(domains: Seq<Seq<char>>) -> Result<Seq<Seq<char>>, ErrorView>
    decreases domains.len(),
{
    if domains.len() == 0 {
        Ok(Seq::empty())
    } else {
        let raw = domains.last();
        match checked_domains(domains.drop_last()) {
            Err(error) => Err(error),
            Ok(list) => if normal(raw).len() == 0 || !dns_name(normal(raw)) {
                Err(legacy_error("invalid domain "@ + raw))
            } else {
                Ok(list.push(normal(raw)))
            },
        }
    }
}

/// The domains of a replacement, checked and in normal form.
pub open spec fn legacy_domains(domains: Seq<Seq<char>>) -> Result<Seq<Seq<char>>, ErrorView> {
    if domains.len() > MAX_RULES {
        Err(legacy_error("domain count exceeds "@ + decimal(MAX_RULES as nat)))
    } else {
        checked_domains(domains)
    }
}

/// The domains of a configuration, in normal form.
pub open spec fn normal_domains(domains: Seq<Seq<char>>) -> Seq<Seq<char>> {
    Seq::new(domains.len(), |i: int| normal(domains[i]))
}

/// Domains in normal form.
pub open spec fn all_normal(domains: Seq<Seq<char>>) -> bool {
    forall|i: int| 0 <= i < domains.len() ==> normal(#[trigger] domains[i]) == domains[i]
}

/// The domains of a configuration end up in normal form.
pub proof fn configured_domains_are_normal(domains: Seq<Seq<char>>)
    ensures
        all_normal(normal_domains(domains)),
{
    assert forall|i: int| 0 <= i < domains.len() implies normal(
        #[trigger] normal_domains(domains)[i],
    ) == normal_domains(domains)[i] by {
        normal_is_idempotent(domains[i]);
    }
}

/// Accepted domains end up in normal form, and those that are in it stay as they are.
pub proof fn accepted_domains_are_normal(domains: Seq<Seq<char>>)
    requires
        checked_domains(domains) is Ok,
    ensures
        checked_domains(domains)->Ok_0 == normal_domains(domains),
        all_normal(checked_domains(domains)->Ok_0),
        all_normal(domains) ==> checked_domains(domains)->Ok_0 == domains,
    decreases domains.len(),
{
    if domains.len() > 0 {
        let front = domains.drop_last();
        accepted_domains_are_normal(front);
        assert(normal_domains(domains) =~= normal_domains(front).push(normal(domains.last())));
    } else {
        assert(normal_domains(domains) =~= Seq::empty());
    }
    configured_domains_are_normal(domains);
    if all_normal(domains) {
        assert(normal_domains(domains) =~= domains);
    }
}

proof fn checked_domains_error_stays(domains: Seq<Seq<char>>, n: int)
    requires
        0 <= n <= domains.len(),
        checked_domains(domains.take(n)) is Err,
    ensures
        checked_domains(domains) == checked_domains(domains.take(n)),
    decreases domains.len(),
{
    if n == domains.len() {
        assert(domains.take(n) =~= domains);
    } else {
        assert(domains.drop_last().take(n) =~= domains.take(n));
        checked_domains_error_stays(domains.drop_last(), n);
    }
}

/// Checks the domains, and hands them out in normal form.
pub fn validate_legacy_domains(domains: &[String]) -> (r: Result<Vec<String>, PolicyError>)
    ensures
        match legacy_domains(texts(domains@)) {
            Ok(list) => r is Ok && texts(r->Ok_0@) == list,
            Err(error) => r is Err && r->Err_0@ == error,
        },
{
    let ghost all = texts(domains@);
    if domains.len() > MAX_RULES {
        return Err(
            PolicyError::InvalidProfile {
                name: "<legacy-domains>".to_owned(),
                reason: ending_in_number("domain count exceeds ", MAX_RULES as u64),
            },
        );
    }
    let mut out: Vec<String> = Vec::new();
    let mut i: usize = 0;
    assert(texts(out@) =~= Seq::<Seq<char>>::empty());
    while i < domains.len()
        invariant
            i <= domains.len() <= MAX_RULES,
            all == texts(domains@),
            checked_domains(all.take(i as int)) == Ok::<Seq<Seq<char>>, ErrorView>(texts(out@)),
        decreases domains.len() - i,
    {
        let ghost next = all.take(i as int + 1);
        assert(next.drop_last() =~= all.take(i as int));
        assert(next.last() == domains[i as int]@);
        let domain = normalize_chars(&to_chars(domains[i].as_str()));
        if domain.len() == 0 || !valid_dns_name(&domain) {
            proof {
                checked_domains_error_stays(all, i as int + 1);
            }
            return Err(
                PolicyError::InvalidProfile {
                    name: "<legacy-domains>".to_owned(),
                    reason: joined("invalid domain ", domains[i].as_str()),
                },
            );
        }
        let ghost before = texts(out@);
        let text = to_text(&domain);
        out.push(text);
        assert(texts(out@) =~= before.push(text@));
        i = i + 1;
    }
    assert(all.take(i as int) =~= all);
    Ok(out)
}

/// The domains in normal form.
pub fn normalize_domains(domains: &[String]) -> (r: Vec<String>)
    ensures
        texts(r@) == normal_domains(texts(domains@)),
{
    let ghost all = normal_domains(texts(domains@));
    let mut out: Vec<String> = Vec::new();
    let mut i: usize = 0;
    while i < domains.len()
        invariant
            i <= domains.len(),
            all == normal_domains(texts(domains@)),
            texts(out@) == all.take(i as int),
        decreases domains.len() - i,
    {
        let ghost before = texts(out@);
        let text = to_text(&normalize_chars(&to_chars(domains[i].as_str())));
        assert(text@ == all[i as int]);
        out.push(text);
        assert(texts(out@) =~= before.push(text@));
        i = i + 1;
        assert(texts(out@) =~= all.take(i as int));
    }
    assert(all.take(i as int) =~= all);
    out
}

/// Whether a name is one of the domains or lies below one.
pub open spec fn listed(domains: Seq<Seq<char>>, name: Seq<char>) -> bool {
    exists|i: int|
        0 <= i < domains.len() && (normal(name) == #[trigger] domains[i] || below(
            normal(name),
            domains[i],
        ))
}

pub fn matches_domains(domains: &[String], name: &str) -> (r: bool)
    ensures
        r == listed(texts(domains@), name@),
{
    let ghost all = texts(domains@);
    let asked = normalize_chars(&to_chars(name));
    let mut i: usize = 0;
    while i < domains.len()
        invariant
            i <= domains.len(),
            all == texts(domains@),
            asked@ == normal(name@),
            forall|k: int|
                0 <= k < i ==> !(normal(name@) == #[trigger] all[k] || below(normal(name@), all[k])),
        decreases domains.len() - i,
    {
        assert(all[i as int] == domains[i as int]@);
        let domain = to_chars(domains[i].as_str());
        if same(&asked, &domain) || is_below(&asked, &domain) {
            return true;
        }
        i = i + 1;
    }
    false
}

/// A name is on the list exactly where, in normal form, it is one of the domains or is something, a
/// dot and one of the domains.
pub proof fn listed_names_end_with_a_listed_domain(domains: Seq<Seq<char>>, name: Seq<char>)
    ensures
        listed(domains, name) <==> exists|i: int, before: Seq<char>|
            0 <= i < domains.len() && (normal(name) == #[trigger] domains[i] || normal(name)
                == #[trigger] (before + seq!['.']) + domains[i]),
{
    if listed(domains, name) {
        let i = choose|i: int|
            0 <= i < domains.len() && (normal(name) == #[trigger] domains[i] || below(
                normal(name),
                domains[i],
            ));
        let n = normal(name);
        let before = n.take(n.len() - domains[i].len() - 1);
        crate::names::names_below_end_with_a_dot_and_the_domain(before, domains[i]);
        assert(n == domains[i] || n == (before + seq!['.']) + domains[i]);
    }
    if exists|i: int, before: Seq<char>|
        0 <= i < domains.len() && (normal(name) == #[trigger] domains[i] || normal(name)
            == #[trigger] (before + seq!['.']) + domains[i]) {
        let (i, before) = choose|i: int, before: Seq<char>|
            0 <= i < domains.len() && (normal(name) == #[trigger] domains[i] || normal(name)
                == #[trigger] (before + seq!['.']) + domains[i]);
        crate::names::names_below_end_with_a_dot_and_the_domain(before, domains[i]);
        assert(normal(name) == domains[i] || below(normal(name), domains[i]));
    }
}

/// Domains are accepted exactly where each of them, without dots at its end, is a host name of 1 to
/// 253 characters, and there are at most 65536 of them.
pub proof fn accepted_domains_are_host_names(domains: Seq<Seq<char>>)
    ensures
        legacy_domains(domains) is Ok <==> domains.len() <= 65_536 && forall|i: int|
            0 <= i < domains.len() ==> 1 <= normal(#[trigger] domains[i]).len() <= 253
                && crate::names::host_labels(normal(domains[i])),
{
    checked_domains_are_host_names(domains);
}

proof fn checked_domains_are_host_names(domains: Seq<Seq<char>>)
    ensures
        checked_domains(domains) is Ok <==> forall|i: int|
            0 <= i < domains.len() ==> 1 <= normal(#[trigger] domains[i]).len() <= 253
                && crate::names::host_labels(normal(domains[i])),
    decreases domains.len(),
{
    if domains.len() > 0 {
        let front = domains.drop_last();
        checked_domains_are_host_names(front);
        if checked_domains(domains) is Ok {
            assert forall|i: int| 0 <= i < domains.len() implies 1 <= normal(
                #[trigger] domains[i],
            ).len() <= 253 && crate::names::host_labels(normal(domains[i])) by {
                if i < front.len() {
                    assert(front[i] == domains[i]);
                }
            }
        }
        if forall|i: int|
            0 <= i < domains.len() ==> 1 <= normal(#[trigger] domains[i]).len() <= 253
                && crate::names::host_labels(normal(domains[i])) {
            assert forall|i: int| 0 <= i < front.len() implies 1 <= normal(#[trigger] front[i]).len()
                <= 253 && crate::names::host_labels(normal(front[i])) by {
                assert(front[i] == domains[i]);
            }
            assert(domains[domains.len() - 1] == domains.last());
        }
    }
}

} // verus!
