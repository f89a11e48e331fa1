//! The summary written at the end of a run: what failed, what was updated,
//! and what was already up to date, each list sorted by package name.

use vstd::prelude::*;
use vstd::relations::sorted_by;
use vstd::string::{StringExecFns, StringSliceAdditionalSpecFns};
use crate::bytes::ascii_chars;
use crate::error::{spec_message, Error};
use crate::version::{spec_display, Version};

verus! {

broadcast use vstd::seq_lib::group_to_multiset_ensures;

/// `a` comes before `b`, or equals it, in byte order (the order of `&str`).
pub open spec fn bytes_le(a: Seq<u8>, b: Seq<u8>) -> bool
    decreases a.len(),
{
    if a.len() == 0 {
        true
    } else if b.len() == 0 {
        false
    } else if a[0] != b[0] {
        a[0] < b[0]
    } else {
        bytes_le(a.drop_first(), b.drop_first())
    }
}

/// One name comes before another, or equals it.
pub open spec fn name_le(a: &str, b: &str) -> bool {
    bytes_le(a.spec_bytes(), b.spec_bytes())
}

proof fn lemma_bytes_le_total(a: Seq<u8>, b: Seq<u8>)
    ensures
        bytes_le(a, b) || bytes_le(b, a),
    decreases a.len(),
{
    if a.len() > 0 && b.len() > 0 && a[0] == b[0] {
        lemma_bytes_le_total(a.drop_first(), b.drop_first());
    }
}

proof fn lemma_bytes_le_trans(a: Seq<u8>, b: Seq<u8>, c: Seq<u8>)
    requires
        bytes_le(a, b),
        bytes_le(b, c),
    ensures
        bytes_le(a, c),
    decreases a.len(),
{
    if a.len() > 0 && b.len() > 0 && c.len() > 0 && a[0] == b[0] && b[0] == c[0] {
        lemma_bytes_le_trans(a.drop_first(), b.drop_first(), c.drop_first());
    }
}

fn bytes_le_exec(a: &[u8], b: &[u8]) -> (res: bool)
    ensures
        res == bytes_le(a@, b@),
{
    let mut i: usize = 0;
    assert(a@.skip(0) =~= a@);
    assert(b@.skip(0) =~= b@);
    while i < a.len() && i < b.len() && a[i] == b[i]
        invariant
            0 <= i <= a@.len(),
            i <= b@.len(),
            bytes_le(a@, b@) == bytes_le(a@.skip(i as int), b@.skip(i as int)),
        decreases a@.len() - i,
    {
        assert(a@.skip(i as int).drop_first() =~= a@.skip(i + 1));
        assert(b@.skip(i as int).drop_first() =~= b@.skip(i + 1));
        i = i + 1;
    }
    if i == a.len() {
        true
    } else if i == b.len() {
        false
    } else {
        a[i] < b[i]
    }
}

/// Whether one name comes before another, or equals it.
pub fn name_le_exec(a: &str, b: &str) -> (res: bool)
    ensures
        res == name_le(a, b),
{
    bytes_le_exec(a.as_bytes(), b.as_bytes())
}

/// The ordering of entries by their names.
pub open spec fn by_name<T>() -> spec_fn((&'static str, T), (&'static str, T)) -> bool {
    |x: (&'static str, T), y: (&'static str, T)| name_le(x.0, y.0)
}

/// The entries named like `n`.
pub open spec fn named_like<T>(n: &'static str) -> spec_fn((&'static str, T)) -> bool {
    |e: (&'static str, T)| name_le(e.0, n) && name_le(n, e.0)
}

/// Sorts entries by name; entries of equal names keep their order.
pub fn sort_by_name<T>(v: &mut Vec<(&'static str, T)>)
    ensures
        sorted_by(final(v)@, by_name::<T>()),
        final(v)@.to_multiset() == old(v)@.to_multiset(),
        forall|n: &'static str|
            #![trigger final(v)@.filter(named_like::<T>(n))]
            final(v)@.filter(named_like::<T>(n)) == old(v)@.filter(named_like::<T>(n)),
{
    let ghost orig = v@;
    let mut out: Vec<(&'static str, T)> = Vec::new();
    proof {
        assert forall|n: &'static str|
            #![trigger out@.filter(named_like::<T>(n))]
            out@.filter(named_like::<T>(n)) == orig.skip(v@.len() as int).filter(
                named_like::<T>(n),
            ) by {
            assert(orig.skip(v@.len() as int) =~= Seq::<(&'static str, T)>::empty());
            assert(out@.filter(named_like::<T>(n)) =~= Seq::<(&'static str, T)>::empty());
            assert(Seq::<(&'static str, T)>::empty().filter(named_like::<T>(n)) =~= Seq::<
                (&'static str, T),
            >::empty());
        }
    }
    while v.len() > 0
        invariant
            sorted_by(out@, by_name::<T>()),
            out@.to_multiset().add(v@.to_multiset()) == orig.to_multiset(),
            v@ == orig.take(v@.len() as int),
            v@.len() <= orig.len(),
            forall|n: &'static str|
                #![trigger out@.filter(named_like::<T>(n))]
                out@.filter(named_like::<T>(n)) == orig.skip(v@.len() as int).filter(
                    named_like::<T>(n),
                ),
        decreases v@.len(),
    {
        let ghost before = v@;
        let x = v.pop().unwrap();
        assert(before =~= v@.push(x));
        assert(orig.skip(v@.len() as int) =~= seq![x] + orig.skip(before.len() as int));
        let mut j: usize = 0;
        while j < out.len() && !name_le_exec(x.0, out[j].0)
            invariant
                0 <= j <= out@.len(),
                forall|k: int| 0 <= k < j ==> !name_le(x.0, #[trigger] out@[k].0),
            decreases out@.len() - j,
        {
            j = j + 1;
        }
        let ghost prev = out@;
        out.insert(j, x);
        proof {
            assert forall|a: int, b: int| 0 <= a < b < out@.len() implies #[trigger] by_name::<T>()(
                out@[a],
                out@[b],
            ) by {
                if a < j && b < j {
                    assert(by_name::<T>()(prev[a], prev[b]));
                } else if a < j && b == j {
                    lemma_bytes_le_total(x.0.spec_bytes(), prev[a].0.spec_bytes());
                } else if a < j {
                    lemma_bytes_le_total(x.0.spec_bytes(), prev[a].0.spec_bytes());
                    assert(by_name::<T>()(prev[a], prev[b - 1]));
                } else if a == j {
                    if b - 1 > j {
                        assert(by_name::<T>()(prev[j as int], prev[b - 1]));
                        lemma_bytes_le_trans(
                            x.0.spec_bytes(),
                            prev[j as int].0.spec_bytes(),
                            prev[b - 1].0.spec_bytes(),
                        );
                    }
                } else {
                    assert(by_name::<T>()(prev[a - 1], prev[b - 1]));
                }
            }
            assert(out@.to_multiset() == prev.to_multiset().insert(x));
            assert(before.to_multiset() == v@.to_multiset().insert(x));
            assert(out@.to_multiset().add(v@.to_multiset()) =~= orig.to_multiset());
            assert(v@ =~= orig.take(v@.len() as int));
            assert(prev =~= prev.take(j as int) + prev.skip(j as int));
            assert(out@ =~= prev.take(j as int) + seq![x] + prev.skip(j as int));
            assert forall|n: &'static str|
                #![trigger out@.filter(named_like::<T>(n))]
                out@.filter(named_like::<T>(n)) == orig.skip(v@.len() as int).filter(
                    named_like::<T>(n),
                ) by {
                let p = named_like::<T>(n);
                let head = prev.take(j as int);
                let tail = prev.skip(j as int);
                Seq::filter_distributes_over_add(head + seq![x], tail, p);
                Seq::filter_distributes_over_add(head, seq![x], p);
                Seq::filter_distributes_over_add(head, tail, p);
                orig.skip(before.len() as int).lemma_filter_prepend(x, p);
                seq![x].lemma_filter_prepend(x, p);
                if p(x) {
                    assert forall|k: int| 0 <= k < head.len() implies !p(#[trigger] head[k]) by {
                        assert(head[k] == prev[k]);
                        assert(!name_le(x.0, prev[k].0));
                        if p(head[k]) {
                            lemma_bytes_le_trans(
                                x.0.spec_bytes(),
                                n.spec_bytes(),
                                prev[k].0.spec_bytes(),
                            );
                        }
                    }
                    head.lemma_all_neg_filter_empty(p);
                    assert(seq![x].drop_last() =~= Seq::<(&'static str, T)>::empty());
                    assert(seq![x].filter(p) =~= seq![x]) by {
                        reveal_with_fuel(Seq::filter, 2);
                    }
                    assert(prev.filter(p) =~= tail.filter(p));
                } else {
                    assert(seq![x].drop_last() =~= Seq::<(&'static str, T)>::empty());
                    assert(seq![x].filter(p) =~= Seq::<(&'static str, T)>::empty()) by {
                        reveal_with_fuel(Seq::filter, 2);
                    }
                }
            }
        }
    }
    assert(orig.skip(0) =~= orig);
    assert(v@.to_multiset() =~= vstd::multiset::Multiset::empty());
    assert(out@.to_multiset() =~= orig.to_multiset());
    *v = out;
}

/// `- <name>` lines, one for each name.
pub open spec fn rollback_lines(ns: Seq<&'static str>) -> Seq<char>
    decreases ns.len(),
{
    if ns.len() == 0 {
        Seq::empty()
    } else {
        rollback_lines(ns.drop_last()) + "- "@ + ns.last()@ + "\n"@
    }
}

/// `- <name>: <error>` lines.
pub open spec fn error_lines(es: Seq<(&'static str, Error)>) -> Seq<char>
    decreases es.len(),
{
    if es.len() == 0 {
        Seq::empty()
    } else {
        error_lines(es.drop_last()) + "- "@ + es.last().0@ + ": "@ + spec_message(es.last().1)
            + "\n"@
    }
}

/// `- <name>: <previous> -> <new>` lines.
pub open spec fn update_lines(us: Seq<(&'static str, (Version, Version))>) -> Seq<char>
    decreases us.len(),
{
    if us.len() == 0 {
        Seq::empty()
    } else {
        update_lines(us.drop_last()) + "- "@ + us.last().0@ + ": "@ + ascii_chars(
            spec_display(us.last().1.0),
        ) + " -> "@ + ascii_chars(spec_display(us.last().1.1)) + "\n"@
    }
}

/// `- <name>: <version>` lines.
pub open spec fn current_lines(cs: Seq<(&'static str, Version)>) -> Seq<char>
    decreases cs.len(),
{
    if cs.len() == 0 {
        Seq::empty()
    } else {
        current_lines(cs.drop_last()) + "- "@ + cs.last().0@ + ": "@ + ascii_chars(
            spec_display(cs.last().1),
        ) + "\n"@
    }
}

/// The rollback notice: the packages in the repository that could not be
/// pushed to Chocolatey.
pub open spec fn rollback_section(rollback: Option<Seq<&'static str>>) -> Seq<char> {
    match rollback {
        Some(ns) => "The following packages have been updated in the repo, but could not be pushed to chocolatey:\n\n"@
            + rollback_lines(ns) + "\n"@,
        None => Seq::empty(),
    }
}

/// The errors section, with a blank line after it when `blank`.
pub open spec fn errors_section(es: Seq<(&'static str, Error)>, blank: bool) -> Seq<char> {
    if es.len() > 0 {
        "## Errors\n\n"@ + error_lines(es) + if blank {
            "\n"@
        } else {
            Seq::empty()
        }
    } else {
        Seq::empty()
    }
}

/// The updates section, with a blank line after it when `blank`.
pub open spec fn updates_section(us: Seq<(&'static str, (Version, Version))>, blank: bool) -> Seq<
    char,
> {
    if us.len() > 0 {
        "## Updates\n\n"@ + update_lines(us) + if blank {
            "\n"@
        } else {
            Seq::empty()
        }
    } else {
        Seq::empty()
    }
}

/// The section of packages already up to date.
pub open spec fn current_section(cs: Seq<(&'static str, Version)>) -> Seq<char> {
    if cs.len() > 0 {
        "## Up to date\n\n"@ + current_lines(cs)
    } else {
        Seq::empty()
    }
}

/// The summary of a run, its lists taken in the order given: first, when
/// rolling back failed, the packages in the repository that could not be
/// pushed to Chocolatey; then the sections for errors, updates and packages
/// already up to date, each only when it has entries. A blank line follows
/// the errors only when there are both updates and up-to-date packages.
pub open spec fn spec_render(
    rollback: Option<Seq<&'static str>>,
    es: Seq<(&'static str, Error)>,
    us: Seq<(&'static str, (Version, Version))>,
    cs: Seq<(&'static str, Version)>,
) -> Seq<char> {
    rollback_section(rollback) + errors_section(es, us.len() > 0 && cs.len() > 0)
        + updates_section(us, cs.len() > 0) + current_section(cs)
}

fn push_rollback(s: &mut String, rollback: Option<&[&'static str]>)
    ensures
        final(s)@ == old(s)@ + rollback_section(
            match rollback {
                Some(ns) => Some(ns@),
                None => None,
            },
        ),
{
    if let Some(ns) = rollback {
        s.append(
            "The following packages have been updated in the repo, but could not be pushed to chocolatey:\n\n",
        );
        let ghost base = s@;
        let mut i: usize = 0;
        assert(rollback_lines(ns@.take(0)) =~= Seq::<char>::empty());
        assert(s@ =~= base + rollback_lines(ns@.take(0)));
        while i < ns.len()
            invariant
                0 <= i <= ns@.len(),
                s@ == base + rollback_lines(ns@.take(i as int)),
            decreases ns@.len() - i,
        {
            s.append("- ");
            s.append(ns[i]);
            s.append("\n");
            assert(ns@.take(i + 1).drop_last() =~= ns@.take(i as int));
            i = i + 1;
            assert(s@ =~= base + rollback_lines(ns@.take(i as int)));
        }
        assert(ns@.take(i as int) =~= ns@);
        s.append("\n");
        assert(s@ =~= old(s)@ + rollback_section(Some(ns@)));
    } else {
        assert(s@ =~= old(s)@ + rollback_section(None));
    }
}

fn push_errors(s: &mut String, errors: &[(&'static str, Error)], blank: bool)
    ensures
        final(s)@ == old(s)@ + errors_section(errors@, blank),
{
    if errors.len() > 0 {
        s.append("## Errors\n\n");
        let ghost base = s@;
        let mut i: usize = 0;
        assert(error_lines(errors@.take(0)) =~= Seq::<char>::empty());
        assert(s@ =~= base + error_lines(errors@.take(0)));
        while i < errors.len()
            invariant
                0 <= i <= errors@.len(),
                s@ == base + error_lines(errors@.take(i as int)),
            decreases errors@.len() - i,
        {
            s.append("- ");
            s.append(errors[i].0);
            s.append(": ");
            let m = errors[i].1.message();
            s.append(m.as_str());
            s.append("\n");
            assert(errors@.take(i + 1).drop_last() =~= errors@.take(i as int));
            i = i + 1;
            assert(s@ =~= base + error_lines(errors@.take(i as int)));
        }
        assert(errors@.take(i as int) =~= errors@);
        let ghost mid = s@;
        if blank {
            s.append("\n");
        }
        assert(s@ =~= old(s)@ + errors_section(errors@, blank));
    } else {
        assert(s@ =~= old(s)@ + errors_section(errors@, blank));
    }
}

fn push_updates(s: &mut String, updated: &[(&'static str, (Version, Version))], blank: bool)
    ensures
        final(s)@ == old(s)@ + updates_section(updated@, blank),
{
    if updated.len() > 0 {
        s.append("## Updates\n\n");
        let ghost base = s@;
        let mut i: usize = 0;
        assert(update_lines(updated@.take(0)) =~= Seq::<char>::empty());
        assert(s@ =~= base + update_lines(updated@.take(0)));
        while i < updated.len()
            invariant
                0 <= i <= updated@.len(),
                s@ == base + update_lines(updated@.take(i as int)),
            decreases updated@.len() - i,
        {
            s.append("- ");
            s.append(updated[i].0);
            s.append(": ");
            let p = updated[i].1.0.to_string();
            s.append(p.as_str());
            s.append(" -> ");
            let n = updated[i].1.1.to_string();
            s.append(n.as_str());
            s.append("\n");
            assert(updated@.take(i + 1).drop_last() =~= updated@.take(i as int));
            i = i + 1;
            assert(s@ =~= base + update_lines(updated@.take(i as int)));
        }
        assert(updated@.take(i as int) =~= updated@);
        if blank {
            s.append("\n");
        }
        assert(s@ =~= old(s)@ + updates_section(updated@, blank));
    } else {
        assert(s@ =~= old(s)@ + updates_section(updated@, blank));
    }
}

fn push_current(s: &mut String, up_to_date: &[(&'static str, Version)])
    ensures
        final(s)@ == old(s)@ + current_section(up_to_date@),
{
    if up_to_date.len() > 0 {
        s.append("## Up to date\n\n");
        let ghost base = s@;
        let mut i: usize = 0;
        assert(current_lines(up_to_date@.take(0)) =~= Seq::<char>::empty());
        assert(s@ =~= base + current_lines(up_to_date@.take(0)));
        while i < up_to_date.len()
            invariant
                0 <= i <= up_to_date@.len(),
                s@ == base + current_lines(up_to_date@.take(i as int)),
            decreases up_to_date@.len() - i,
        {
            s.append("- ");
            s.append(up_to_date[i].0);
            s.append(": ");
            let v = up_to_date[i].1.to_string();
            s.append(v.as_str());
            s.append("\n");
            assert(up_to_date@.take(i + 1).drop_last() =~= up_to_date@.take(i as int));
            i = i + 1;
            assert(s@ =~= base + current_lines(up_to_date@.take(i as int)));
        }
        assert(up_to_date@.take(i as int) =~= up_to_date@);
        assert(s@ =~= old(s)@ + current_section(up_to_date@));
    } else {
        assert(s@ =~= old(s)@ + current_section(up_to_date@));
    }
}

/// Writes the summary of a run from its lists, in the order given (see `spec_render`).
pub fn render_report(
    rollback: Option<&[&'static str]>,
    errors: &[(&'static str, Error)],
    updated: &[(&'static str, (Version, Version))],
    up_to_date: &[(&'static str, Version)],
) -> (res: String)
    ensures
        res@ == spec_render(
            match rollback {
                Some(ns) => Some(ns@),
                None => None,
            },
            errors@,
            updated@,
            up_to_date@,
        ),
{
    let mut s = String::new();
    push_rollback(&mut s, rollback);
    push_errors(&mut s, errors, updated.len() > 0 && up_to_date.len() > 0);
    push_updates(&mut s, updated, up_to_date.len() > 0);
    push_current(&mut s, up_to_date);
    assert(s@ =~= spec_render(
        match rollback {
            Some(ns) => Some(ns@),
            None => None,
        },
        errors@,
        updated@,
        up_to_date@,
    ));
    s
}

/// Sorts the lists of a run by package name, entries of equal names keeping
/// their order, and writes its summary.
pub fn build_report(
    rollback: Option<&[&'static str]>,
    errors: &mut Vec<(&'static str, Error)>,
    updated: &mut Vec<(&'static str, (Version, Version))>,
    up_to_date: &mut Vec<(&'static str, Version)>,
) -> (res: String)
    ensures
        sorted_by(final(errors)@, by_name::<Error>()),
        sorted_by(final(updated)@, by_name::<(Version, Version)>()),
        sorted_by(final(up_to_date)@, by_name::<Version>()),
        final(errors)@.to_multiset() == old(errors)@.to_multiset(),
        final(updated)@.to_multiset() == old(updated)@.to_multiset(),
        final(up_to_date)@.to_multiset() == old(up_to_date)@.to_multiset(),
        forall|n: &'static str|
            #![trigger final(errors)@.filter(named_like::<Error>(n))]
            final(errors)@.filter(named_like::<Error>(n)) == old(errors)@.filter(
                named_like::<Error>(n),
            ),
        forall|n: &'static str|
            #![trigger final(updated)@.filter(named_like::<(Version, Version)>(n))]
            final(updated)@.filter(named_like::<(Version, Version)>(n)) == old(updated)@.filter(
                named_like::<(Version, Version)>(n),
            ),
        forall|n: &'static str|
            #![trigger final(up_to_date)@.filter(named_like::<Version>(n))]
            final(up_to_date)@.filter(named_like::<Version>(n)) == old(up_to_date)@.filter(
                named_like::<Version>(n),
            ),
        res@ == spec_render(
            match rollback {
                Some(ns) => Some(ns@),
                None => None,
            },
            final(errors)@,
            final(updated)@,
            final(up_to_date)@,
        ),
{
    sort_by_name(errors);
    sort_by_name(updated);
    sort_by_name(up_to_date);
    render_report(rollback, errors.as_slice(), updated.as_slice(), up_to_date.as_slice())
}

/// What the Chocolatey pushes leave, for updates `us` whose pushes had the
/// outcomes `os` (one for each update, in the same order): the updates that
/// were pushed stay updated, in their order, and each one that was refused
/// becomes an error, from the last update to the first.
pub open spec fn spec_settle_pushes(
    us: Seq<(&'static str, Version, Version)>,
    os: Seq<Result<(), Error>>,
) -> (Seq<(&'static str, Version, Version)>, Seq<(&'static str, Error)>)
    decreases us.len(),
{
    if us.len() == 0 || os.len() == 0 {
        (Seq::empty(), Seq::empty())
    } else {
        let rest = spec_settle_pushes(us.drop_first(), os.drop_first());
        match os[0] {
            Ok(_) => (seq![us[0]] + rest.0, rest.1),
            Err(e) => (rest.0, rest.1.push((us[0].0, e))),
        }
    }
}

/// The errors of a run whose git push failed: every update becomes a
/// `PushFailed` error, in the order of the updates.
pub fn push_failures(updated: Vec<(&'static str, Version, Version)>) -> (res: Vec<
    (&'static str, Error),
>)
    ensures
        res@.len() == updated@.len(),
        forall|i: int|
            0 <= i < updated@.len() ==> #[trigger] res@[i] == (updated@[i].0, Error::PushFailed),
{
    let mut res: Vec<(&'static str, Error)> = Vec::new();
    let mut i: usize = 0;
    while i < updated.len()
        invariant
            0 <= i <= updated@.len(),
            res@.len() == i,
            forall|k: int| 0 <= k < i ==> #[trigger] res@[k] == (updated@[k].0, Error::PushFailed),
        decreases updated@.len() - i,
    {
        res.push((updated[i].0, Error::PushFailed));
        i = i + 1;
    }
    res
}

/// Splits the updates of a run by the outcomes of their Chocolatey pushes,
/// `outcomes[i]` being that of `updated[i]` (see `spec_settle_pushes`).
/// Every update ends up in exactly one of the two lists. When a push was
/// refused, the run must be rolled back: the third part is then the number
/// of commits to reset, one for each update; it is `None` when every push
/// went through.
pub fn settle_pushes(
    updated: Vec<(&'static str, Version, Version)>,
    outcomes: Vec<Result<(), Error>>,
) -> (res: (Vec<(&'static str, Version, Version)>, Vec<(&'static str, Error)>, Option<usize>))
    requires
        updated@.len() == outcomes@.len(),
    ensures
        res.0@ == spec_settle_pushes(updated@, outcomes@).0,
        res.1@ == spec_settle_pushes(updated@, outcomes@).1,
        res.0@.len() + res.1@.len() == updated@.len(),
        res.2 == (if res.1@.len() > 0 {
            Some(updated@.len() as usize)
        } else {
            None::<usize>
        }),
{
    let total = updated.len();
    let ghost us0 = updated@;
    let ghost os0 = outcomes@;
    let mut updated = updated;
    let mut outcomes = outcomes;
    let mut kept: Vec<(&'static str, Version, Version)> = Vec::new();
    let mut failed: Vec<(&'static str, Error)> = Vec::new();
    assert(us0.skip(us0.len() as int) =~= Seq::<(&'static str, Version, Version)>::empty());
    while updated.len() > 0
        invariant
            us0.len() == os0.len(),
            updated@.len() == outcomes@.len(),
            updated@.len() <= us0.len(),
            updated@ == us0.take(updated@.len() as int),
            outcomes@ == os0.take(outcomes@.len() as int),
            kept@ == spec_settle_pushes(
                us0.skip(updated@.len() as int),
                os0.skip(updated@.len() as int),
            ).0,
            failed@ == spec_settle_pushes(
                us0.skip(updated@.len() as int),
                os0.skip(updated@.len() as int),
            ).1,
            kept@.len() + failed@.len() == us0.len() - updated@.len(),
        decreases updated@.len(),
    {
        let ghost n = updated@.len() as int;
        let u = updated.pop().unwrap();
        let o = outcomes.pop().unwrap();
        assert(us0.skip(n - 1).drop_first() =~= us0.skip(n));
        assert(os0.skip(n - 1).drop_first() =~= os0.skip(n));
        assert(us0.skip(n - 1)[0] == u);
        assert(os0.skip(n - 1)[0] == o);
        assert(updated@ =~= us0.take(n - 1));
        assert(outcomes@ =~= os0.take(n - 1));
        match o {
            Ok(()) => {
                kept.insert(0, u);
                assert(kept@ =~= seq![u] + spec_settle_pushes(us0.skip(n), os0.skip(n)).0);
            },
            Err(e) => {
                failed.push((u.0, e));
            },
        }
    }
    assert(us0.skip(0) =~= us0);
    assert(os0.skip(0) =~= os0);
    let reset = if failed.len() > 0 {
        Some(total)
    } else {
        None
    };
    (kept, failed, reset)
}

} // verus!
