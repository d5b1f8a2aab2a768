//! The push path's decisions: reading push commands, the fast-forward rule for
//! each ref, the namespace and state that a push produces, and what to do
//! when the upstream push fails.
use vstd::prelude::*;
use vstd::utf8::encode_utf8;

use crate::bytes::{bytes_eq, bytes_view, copy_bytes, copy_range, find_byte, first_index, split_words, starts_with, words, has_prefix};
use crate::model::{
    ids_view, oid_at, ref_value, shallow_eq, Namespace, NamespaceRef, PackRef, Ref, State, StateRef,
    opt_pack_view,
};
use crate::table::{ascending, lookup, table_remove, table_set};
use crate::wire::{WireBlob, WirePack, WireRef};

verus! {

broadcast use vstd::seq::group_seq_axioms;

/// The word that starts a push command.
pub open spec fn push_word() -> Seq<u8> {
    seq![112u8, 117u8, 115u8, 104u8]
}

/// The prefix of tag names.
pub open spec fn tag_prefix() -> Seq<u8> {
    seq![114u8, 101u8, 102u8, 115u8, 47u8, 116u8, 97u8, 103u8, 115u8, 47u8]
}

fn push_word_bytes() -> (r: Vec<u8>)
    ensures
        r@ == push_word(),
{
    let mut v: Vec<u8> = Vec::new();
    v.push(112u8);
    v.push(117u8);
    v.push(115u8);
    v.push(104u8);
    assert(v@ =~= push_word());
    v
}

fn tag_prefix_bytes() -> (r: Vec<u8>)
    ensures
        r@ == tag_prefix(),
{
    let mut v: Vec<u8> = Vec::new();
    v.push(114u8);
    v.push(101u8);
    v.push(102u8);
    v.push(115u8);
    v.push(47u8);
    v.push(116u8);
    v.push(97u8);
    v.push(103u8);
    v.push(115u8);
    v.push(47u8);
    assert(v@ =~= tag_prefix());
    v
}

/// Why a push command could not be read.
#[derive(Debug, Clone, Copy, PartialEq, Eq)]
pub enum PushSpecError {
    /// Not the word `push` followed by exactly one argument.
    NotPush,
    /// The argument has no `:` and so names no destination.
    MissingDest,
}

/// A push command read: whether it is forced, the source and the destination.
#[verifier::opaque]
pub open spec fn parse_push_line(line: Seq<u8>) -> Result<(bool, Seq<u8>, Seq<u8>), PushSpecError> {
    let t = words(line);
    if t.len() != 2 || t[0] != push_word() {
        Err(PushSpecError::NotPush)
    } else {
        let arg = t[1];
        match first_index(arg, 58u8) {
            None => Err(PushSpecError::MissingDest),
            Some(i) => {
                let src = arg.take(i);
                let rest = arg.skip(i + 1);
                let dst = match first_index(rest, 58u8) {
                    Some(j) => rest.take(j),
                    None => rest,
                };
                if src.len() > 0 && src[0] == 43u8 {
                    Ok((true, src.skip(1), dst))
                } else if src.len() == 0 {
                    Ok((true, src, dst))
                } else {
                    Ok((false, src, dst))
                }
            },
        }
    }
}

/// Reads one push command.
pub fn parse_push_line_bytes(line: &[u8]) -> (r: Result<(bool, Vec<u8>, Vec<u8>), PushSpecError>)
    ensures
        r matches Ok((f, a, b)) ==> parse_push_line(line@) == Ok::<(bool, Seq<u8>, Seq<u8>), PushSpecError>((f, a@, b@)),
        r matches Err(e) ==> parse_push_line(line@) == Err::<(bool, Seq<u8>, Seq<u8>), PushSpecError>(e),
{
    reveal(parse_push_line);
    let word = push_word_bytes();
    let toks = split_words(line);
    proof {
        assert(bytes_view(toks@).len() == toks@.len());
        if toks@.len() == 2 {
            assert(bytes_view(toks@)[0] == toks@[0]@);
            assert(bytes_view(toks@)[1] == toks@[1]@);
        }
    }
    if toks.len() != 2 || !bytes_eq(toks[0].as_slice(), word.as_slice()) {
        return Err(PushSpecError::NotPush);
    }
    let arg = toks[1].as_slice();
    let colon = match find_byte(arg, 58u8) {
        None => {
            return Err(PushSpecError::MissingDest);
        },
        Some(c) => c,
    };
    assert(colon < arg@.len()) by {
        lemma_first_index_bound(arg@, 58u8);
    }
    let src = copy_range(arg, 0, colon);
    let rest = copy_range(arg, colon + 1, arg.len());
    proof {
        assert(src@ =~= arg@.take(colon as int));
        assert(rest@ =~= arg@.skip(colon + 1));
    }
    let dst = match find_byte(rest.as_slice(), 58u8) {
        Some(j) => {
            assert(j < rest@.len()) by {
                lemma_first_index_bound(rest@, 58u8);
            }
            let d = copy_range(rest.as_slice(), 0, j);
            assert(d@ =~= rest@.take(j as int));
            d
        },
        None => rest,
    };
    if src.len() > 0 && src[0] == 43u8 {
        let s = copy_range(src.as_slice(), 1, src.len());
        assert(s@ =~= src@.skip(1));
        Ok((true, s, dst))
    } else if src.len() == 0 {
        Ok((true, src, dst))
    } else {
        Ok((false, src, dst))
    }
}

pub proof fn lemma_first_index_bound(s: Seq<u8>, b: u8)
    ensures
        first_index(s, b) matches Some(i) ==> 0 <= i < s.len() && s[i] == b,
    decreases s.len(),
{
    if s.len() > 0 && s[0] != b {
        lemma_first_index_bound(s.drop_first(), b);
    }
}

pub open spec fn command_lines(specs: Seq<String>) -> Seq<Seq<u8>> {
    specs.map_values(|s: String| encode_utf8(s@))
}

/// The (source, destination) pairs that the lines give for pushes of the
/// given kind, up to the first line that cannot be read.
pub open spec fn collect_specs(lines: Seq<Seq<u8>>, force: bool) -> Seq<(Seq<u8>, Seq<u8>)>
    decreases lines.len(),
{
    if lines.len() == 0 {
        Seq::empty()
    } else {
        let before = collect_specs(lines.drop_last(), force);
        match parse_push_line(lines.last()) {
            Ok((f, s, d)) => if f == force {
                before.push((s, d))
            } else {
                before
            },
            Err(_) => before,
        }
    }
}

proof fn lemma_collect_step(lines: Seq<Seq<u8>>, i: int, force: bool)
    requires
        0 <= i < lines.len(),
    ensures
        collect_specs(lines.take(i + 1), force) == (match parse_push_line(lines[i]) {
            Ok((f, s, d)) => if f == force {
                collect_specs(lines.take(i), force).push((s, d))
            } else {
                collect_specs(lines.take(i), force)
            },
            Err(_) => collect_specs(lines.take(i), force),
        }),
{
    assert(lines.take(i + 1).drop_last() =~= lines.take(i));
    assert(lines.take(i + 1).last() == lines[i]);
}

/// Reading stopped at line `k` with error `e`, after the lines before it were
/// taken in.
pub open spec fn stopped_at(
    lines: Seq<Seq<u8>>,
    k: int,
    e: PushSpecError,
    p0: Seq<(Seq<u8>, Seq<u8>)>,
    f0: Seq<(Seq<u8>, Seq<u8>)>,
    p1: Seq<(Seq<u8>, Seq<u8>)>,
    f1: Seq<(Seq<u8>, Seq<u8>)>,
) -> bool {
    &&& 0 <= k < lines.len()
    &&& parse_push_line(lines[k]) == Err::<(bool, Seq<u8>, Seq<u8>), PushSpecError>(e)
    &&& forall|m: int| 0 <= m < k ==> #[trigger] parse_push_line(lines[m]) is Ok
    &&& p1 == p0 + collect_specs(lines.take(k), false)
    &&& f1 == f0 + collect_specs(lines.take(k), true)
}

pub open spec fn pairs_view(v: Seq<(Vec<u8>, Vec<u8>)>) -> Seq<(Seq<u8>, Seq<u8>)> {
    v.map_values(|p: (Vec<u8>, Vec<u8>)| (p.0@, p.1@))
}

#[verifier::rlimit(40)]
/// Reads push commands (`push <src>:<dst>`, `push +<src>:<dst>` forced,
/// `push :<dst>` a deletion, always forced) into plain and forced pushes, and
/// stops at the first line that cannot be read.
pub fn parse_push_specs(
    specs: &Vec<String>,
    pushes: &mut Vec<(Vec<u8>, Vec<u8>)>,
    force_pushes: &mut Vec<(Vec<u8>, Vec<u8>)>,
) -> (r: Result<(), PushSpecError>)
    ensures
        r is Ok <==> forall|i: int| 0 <= i < specs@.len() ==> #[trigger] parse_push_line(command_lines(specs@)[i]) is Ok,
        r matches Err(e) ==> exists|k: int| #[trigger] stopped_at(command_lines(specs@), k, e, pairs_view(old(pushes)@),
            pairs_view(old(force_pushes)@), pairs_view(final(pushes)@), pairs_view(final(force_pushes)@)),
        r is Ok ==> pairs_view(final(pushes)@) == pairs_view(old(pushes)@) + collect_specs(command_lines(specs@), false),
        r is Ok ==> pairs_view(final(force_pushes)@) == pairs_view(old(force_pushes)@) + collect_specs(command_lines(specs@), true),
{
    let ghost lines = command_lines(specs@);
    let ghost p0 = pairs_view(pushes@);
    let ghost f0 = pairs_view(force_pushes@);
    let mut i: usize = 0;
    while i < specs.len()
        invariant
            lines == command_lines(specs@),
            p0 == pairs_view(old(pushes)@),
            f0 == pairs_view(old(force_pushes)@),
            0 <= i <= specs@.len(),
            forall|k: int| 0 <= k < i ==> #[trigger] parse_push_line(lines[k]) is Ok,
            pairs_view(pushes@) == p0 + collect_specs(lines.take(i as int), false),
            pairs_view(force_pushes@) == f0 + collect_specs(lines.take(i as int), true),
        decreases specs@.len() - i,
    {
        let line = specs[i].as_str().as_bytes();
        assert(line@ == lines[i as int]);
        let ghost pre_p = pairs_view(pushes@);
        let ghost pre_f = pairs_view(force_pushes@);
        proof {
            lemma_collect_step(lines, i as int, true);
            lemma_collect_step(lines, i as int, false);
        }
        match parse_push_line_bytes(line) {
            Err(e) => {
                proof {
                    assert(parse_push_line(lines[i as int]) is Err);
                    assert(command_lines(specs@)[i as int] == lines[i as int]);
                    assert(stopped_at(lines, i as int, e, p0, f0, pairs_view(pushes@), pairs_view(force_pushes@)));
                }
                return Err(e);
            },
            Ok((force, src, dst)) => {
                if force {
                    force_pushes.push((src, dst));
                    proof {
                        assert(pairs_view(force_pushes@) =~= pre_f.push((src@, dst@)));
                    }
                } else {
                    pushes.push((src, dst));
                    proof {
                        assert(pairs_view(pushes@) =~= pre_p.push((src@, dst@)));
                    }
                }
            },
        }
        i = i + 1;
    }
    assert(lines.take(specs@.len() as int) =~= lines);
    Ok(())
}

/// Whether a push of `name` from `current` to `future` may go ahead without
/// force, where `descends` says that both are commits and `future` descends
/// from `current` (or is it).
pub open spec fn fast_forward_allowed(name: Seq<u8>, current: WireRef, future: WireRef, descends: bool) -> bool {
    if shallow_eq(current, future) {
        true
    } else if current is Symbolic || future is Symbolic {
        false
    } else if has_prefix(name, tag_prefix()) {
        false
    } else {
        descends
    }
}

/// Whether the decision for this push hangs on the commit graph: both refs
/// direct, different, and the name not a tag. If so, the ids to ask about
/// (current, future).
pub fn ancestry_question(name: &[u8], current: &Ref, future: &Ref) -> (r: Option<(Vec<u8>, Vec<u8>)>)
    ensures
        r is Some <==> (!shallow_eq(current@, future@) && current is Direct && future is Direct && !has_prefix(name@, tag_prefix())),
        r matches Some((a, b)) ==> Some(a@) == oid_at(current@) && Some(b@) == oid_at(future@),
{
    if Ref::shallow_equal(current, future) {
        return None;
    }
    let tags = tag_prefix_bytes();
    match (current, future) {
        (Ref::Direct(a), Ref::Direct(b)) => {
            if starts_with(name, tags.as_slice()) {
                None
            } else {
                Some((copy_bytes(a.as_slice()), copy_bytes(b.as_slice())))
            }
        },
        _ => None,
    }
}

/// The fast-forward rule for one ref.
pub fn can_fast_forward(name: &[u8], current: &Ref, future: &Ref, descends: bool) -> (r: bool)
    ensures
        r == fast_forward_allowed(name@, current@, future@, descends),
{
    if Ref::shallow_equal(current, future) {
        return true;
    }
    match (current, future) {
        (Ref::Direct(_), Ref::Direct(_)) => {
            let tags = tag_prefix_bytes();
            if starts_with(name, tags.as_slice()) {
                false
            } else {
                descends
            }
        },
        _ => false,
    }
}

/// Fast-forward correctness: for a tag name, an existing different value is
/// never replaced without force; for any other name, a direct ref moves iff
/// the new commit descends from the old one or is it.
pub proof fn lemma_fast_forward_rule(name: Seq<u8>, current: Seq<u8>, future: Seq<u8>, descends: bool)
    ensures
        has_prefix(name, tag_prefix()) && current != future ==> !fast_forward_allowed(
            name,
            WireRef::Direct(current),
            WireRef::Direct(future),
            descends,
        ),
        !has_prefix(name, tag_prefix()) ==> (fast_forward_allowed(
            name,
            WireRef::Direct(current),
            WireRef::Direct(future),
            descends,
        ) <==> (current == future || descends)),
{
}

/// Whether a non-forced push of `name` to `future` is admitted against the
/// namespace's table `refs`: a new name always is.
pub open spec fn admitted(refs: Seq<(Vec<u8>, Ref)>, name: Seq<u8>, future: WireRef, descends: bool) -> bool {
    match ref_value(refs, name) {
        None => true,
        Some(cur) => fast_forward_allowed(name, cur, future, descends),
    }
}

pub open spec fn ref_pairs_view(v: Seq<(Vec<u8>, Ref)>) -> Seq<(Seq<u8>, WireRef)> {
    v.map_values(|p: (Vec<u8>, Ref)| (p.0@, p.1@))
}

pub open spec fn force_pairs_view(v: Seq<(Vec<u8>, Option<Ref>)>) -> Seq<(Seq<u8>, Option<WireRef>)> {
    v.map_values(|p: (Vec<u8>, Option<Ref>)| (p.0@, match p.1 { Some(r) => Some(r@), None => None }))
}

/// The value of `k` after the first `n` plain pushes were applied, each one
/// only if admitted against the table as it was before the push.
pub open spec fn after_pushes(
    refs: Seq<(Vec<u8>, Ref)>,
    pushes: Seq<(Seq<u8>, WireRef)>,
    descends: Seq<bool>,
    n: int,
    k: Seq<u8>,
) -> Option<WireRef>
    decreases n,
{
    if n <= 0 {
        ref_value(refs, k)
    } else if pushes[n - 1].0 == k && admitted(refs, k, pushes[n - 1].1, descends[n - 1]) {
        Some(pushes[n - 1].1)
    } else {
        after_pushes(refs, pushes, descends, n - 1, k)
    }
}

/// The value of `k` once the first `n` forced pushes were applied after the
/// plain ones; a forced push to nothing deletes.
pub open spec fn after_force(
    refs: Seq<(Vec<u8>, Ref)>,
    pushes: Seq<(Seq<u8>, WireRef)>,
    descends: Seq<bool>,
    force: Seq<(Seq<u8>, Option<WireRef>)>,
    n: int,
    k: Seq<u8>,
) -> Option<WireRef>
    decreases n,
{
    if n <= 0 {
        after_pushes(refs, pushes, descends, pushes.len() as int, k)
    } else if force[n - 1].0 == k {
        force[n - 1].1
    } else {
        after_force(refs, pushes, descends, force, n - 1, k)
    }
}

/// The namespace after a push, and the status reported for each ref: plain
/// pushes are applied where the fast-forward rule admits them (`descends[i]`
/// answers the commit-graph question for push `i`), forced pushes always.
/// The namespace's pack becomes the new pack when it holds any bytes.
pub fn update_namespace_with_push(
    namespace: &Namespace,
    pushes: &Vec<(Vec<u8>, Ref)>,
    descends: &Vec<bool>,
    force_pushes: &Vec<(Vec<u8>, Option<Ref>)>,
    pack: PackRef,
    pack_size: usize,
) -> (r: (Namespace, Vec<(Vec<u8>, bool)>))
    requires
        namespace.wf(),
        pack.wf(),
        descends@.len() == pushes@.len(),
        forall|i: int| 0 <= i < pushes@.len() ==> crate::wire::wf_ref((#[trigger] pushes@[i]).1@),
        forall|i: int| 0 <= i < force_pushes@.len() ==> ((#[trigger] force_pushes@[i]).1 matches Some(x) ==> crate::wire::wf_ref(x@)),
    ensures
        r.0.wf(),
        forall|k: Seq<u8>| #[trigger] ref_value(r.0.refs@, k) == after_force(
            namespace.refs@,
            ref_pairs_view(pushes@),
            descends@,
            force_pairs_view(force_pushes@),
            force_pushes@.len() as int,
            k,
        ),
        opt_pack_view(r.0.pack) == (if pack_size > 0 { Some(pack@) } else { None::<WirePack> }),
        r.0.random_name@ == namespace.random_name@,
        r.1@.len() == pushes@.len() + force_pushes@.len(),
        forall|i: int| 0 <= i < pushes@.len() ==> (#[trigger] r.1@[i]).0@ == pushes@[i].0@ && r.1@[i].1
            == admitted(namespace.refs@, pushes@[i].0@, pushes@[i].1@, descends@[i]),
        forall|i: int| 0 <= i < force_pushes@.len() ==> (#[trigger] r.1@[pushes@.len() + i]).0@ == force_pushes@[i].0@
            && r.1@[pushes@.len() + i].1,
{
    let ghost orig = namespace.refs@;
    let ghost pv = ref_pairs_view(pushes@);
    let ghost fv = force_pairs_view(force_pushes@);
    let mut refs: Vec<(Vec<u8>, Ref)> = Vec::new();
    let mut i: usize = 0;
    while i < namespace.refs.len()
        invariant
            orig == namespace.refs@,
            ascending(orig),
            0 <= i <= orig.len(),
            ref_pairs_view(refs@) == ref_pairs_view(orig).take(i as int),
        decreases orig.len() - i,
    {
        let e = (copy_bytes(namespace.refs[i].0.as_slice()), namespace.refs[i].1.copy());
        let ghost prev = refs@;
        refs.push(e);
        assert(ref_pairs_view(refs@) =~= ref_pairs_view(prev).push(ref_pairs_view(orig)[i as int]));
        assert(ref_pairs_view(orig).take(i as int + 1) =~= ref_pairs_view(orig).take(i as int).push(
            ref_pairs_view(orig)[i as int],
        ));
        i = i + 1;
    }
    proof {
        assert(ref_pairs_view(orig).take(orig.len() as int) =~= ref_pairs_view(orig));
        lemma_same_view_table(refs@, orig);
    }
    let mut status: Vec<(Vec<u8>, bool)> = Vec::new();
    let mut j: usize = 0;
    while j < pushes.len()
        invariant
            orig == namespace.refs@,
            pv == ref_pairs_view(pushes@),
            descends@.len() == pushes@.len(),
            ascending(orig),
            ascending(refs@),
            0 <= j <= pushes@.len(),
            forall|k: Seq<u8>| #[trigger] ref_value(refs@, k) == after_pushes(orig, pv, descends@, j as int, k),
            status@.len() == j,
            forall|m: int| 0 <= m < j ==> (#[trigger] status@[m]).0@ == pushes@[m].0@ && status@[m].1
                == admitted(orig, pushes@[m].0@, pushes@[m].1@, descends@[m]),
        decreases pushes@.len() - j,
    {
        let name = pushes[j].0.as_slice();
        let allowed = match crate::table::table_get(&namespace.refs, name) {
            None => true,
            Some(cur) => can_fast_forward(name, cur, &pushes[j].1, descends[j]),
        };
        let ghost before = refs@;
        proof {
            assert(pv[j as int] == (pushes@[j as int].0@, pushes@[j as int].1@));
            assert(allowed == admitted(orig, name@, pushes@[j as int].1@, descends@[j as int]));
        }
        if allowed {
            table_set(&mut refs, copy_bytes(name), pushes[j].1.copy());
        }
        proof {
            assert forall|k: Seq<u8>| #[trigger] ref_value(refs@, k) == after_pushes(orig, pv, descends@, j + 1, k) by {
                if k != name@ {
                    assert(ref_value(refs@, k) == ref_value(before, k));
                }
            }
        }
        let ghost prev_status = status@;
        status.push((copy_bytes(name), allowed));
        proof {
            assert(pv[j as int] == (pushes@[j as int].0@, pushes@[j as int].1@));
            assert forall|m: int| 0 <= m < j + 1 implies (#[trigger] status@[m]).0@ == pushes@[m].0@ && status@[m].1
                == admitted(orig, pushes@[m].0@, pushes@[m].1@, descends@[m]) by {
                if m < j {
                    assert(status@[m] == prev_status[m]);
                }
            }
        }
        j = j + 1;
    }
    let mut f: usize = 0;
    while f < force_pushes.len()
        invariant
            orig == namespace.refs@,
            pv == ref_pairs_view(pushes@),
            fv == force_pairs_view(force_pushes@),
            ascending(refs@),
            0 <= f <= force_pushes@.len(),
            forall|k: Seq<u8>| #[trigger] ref_value(refs@, k) == after_force(orig, pv, descends@, fv, f as int, k),
            status@.len() == pushes@.len() + f,
            forall|m: int| 0 <= m < pushes@.len() ==> (#[trigger] status@[m]).0@ == pushes@[m].0@ && status@[m].1
                == admitted(orig, pushes@[m].0@, pushes@[m].1@, descends@[m]),
            forall|m: int| 0 <= m < f ==> (#[trigger] status@[pushes@.len() + m]).0@ == force_pushes@[m].0@
                && status@[pushes@.len() + m].1,
        decreases force_pushes@.len() - f,
    {
        let name = force_pushes[f].0.as_slice();
        let ghost before = refs@;
        proof {
            assert(fv[f as int] == (force_pushes@[f as int].0@, match force_pushes@[f as int].1 {
                Some(r) => Some(r@),
                None => None::<WireRef>,
            }));
        }
        match &force_pushes[f].1 {
            Some(target) => {
                table_set(&mut refs, copy_bytes(name), target.copy());
            },
            None => {
                table_remove(&mut refs, name);
            },
        }
        proof {
            assert forall|k: Seq<u8>| #[trigger] ref_value(refs@, k) == after_force(orig, pv, descends@, fv, f + 1, k) by {
                if k != name@ {
                    assert(ref_value(refs@, k) == ref_value(before, k));
                }
            }
        }
        let ghost prev_status = status@;
        status.push((copy_bytes(name), true));
        proof {
            assert forall|m: int| 0 <= m < pushes@.len() implies (#[trigger] status@[m]).0@ == pushes@[m].0@ && status@[m].1
                == admitted(orig, pushes@[m].0@, pushes@[m].1@, descends@[m]) by {
                assert(status@[m] == prev_status[m]);
            }
            assert forall|m: int| 0 <= m < f + 1 implies (#[trigger] status@[pushes@.len() + m]).0@ == force_pushes@[m].0@
                && status@[pushes@.len() + m].1 by {
                if m < f {
                    assert(status@[pushes@.len() + m] == prev_status[pushes@.len() + m]);
                }
            }
        }
        f = f + 1;
    }
    let new_pack = if pack_size > 0 {
        Some(pack)
    } else {
        None
    };
    let out = Namespace { refs, pack: new_pack, random_name: copy_bytes(namespace.random_name.as_slice()) };
    proof {
        assert forall|m: int| 0 <= m < orig.len() implies crate::wire::wf_ref((#[trigger] orig[m]).1@) by {
            assert(namespace@.refs[m].1 == orig[m].1@);
        }
        lemma_after_force_wf(orig, pushes@, descends@, force_pushes@, out.refs@, force_pushes@.len() as int);
        assert forall|m: int| 0 <= m < out@.refs.len() implies crate::wire::wf_ref(#[trigger] out@.refs[m].1) by {
            assert(out@.refs[m].1 == out.refs@[m].1@);
        }
        assert forall|m: int| 0 <= m < out@.refs.len() - 1 implies #[trigger] crate::bytes::lex_lt(
            out@.refs[m].0,
            out@.refs[m + 1].0,
        ) by {
            assert(crate::bytes::lex_lt(out.refs@[m].0@, out.refs@[m + 1].0@));
        }
    }
    (out, status)
}

/// Tables with the same entries, seen as values, answer alike.
pub proof fn lemma_same_view_table(a: Seq<(Vec<u8>, Ref)>, b: Seq<(Vec<u8>, Ref)>)
    requires
        ref_pairs_view(a) == ref_pairs_view(b),
        ascending(b),
    ensures
        forall|k: Seq<u8>| #[trigger] ref_value(a, k) == ref_value(b, k),
        ascending(a),
{
    assert(a.len() == b.len()) by {
        assert(ref_pairs_view(a).len() == a.len());
    }
    assert forall|k: Seq<u8>| #[trigger] ref_value(a, k) == ref_value(b, k) by {
        lemma_same_view_lookup(a, b, k);
    }
    assert forall|i: int| 0 <= i < a.len() - 1 implies #[trigger] crate::bytes::lex_lt(a[i].0@, a[i + 1].0@) by {
        assert(ref_pairs_view(a)[i] == ref_pairs_view(b)[i]);
        assert(ref_pairs_view(a)[i + 1] == ref_pairs_view(b)[i + 1]);
        assert(crate::bytes::lex_lt(b[i].0@, b[i + 1].0@));
    }
}

proof fn lemma_same_view_lookup(a: Seq<(Vec<u8>, Ref)>, b: Seq<(Vec<u8>, Ref)>, k: Seq<u8>)
    requires
        ref_pairs_view(a) == ref_pairs_view(b),
    ensures
        ref_value(a, k) == ref_value(b, k),
    decreases a.len(),
{
    assert(a.len() == b.len()) by {
        assert(ref_pairs_view(a).len() == a.len());
    }
    if a.len() > 0 {
        assert(ref_pairs_view(a)[0] == ref_pairs_view(b)[0]);
        assert(ref_pairs_view(a.drop_first()) =~= ref_pairs_view(a).drop_first());
        assert(ref_pairs_view(b.drop_first()) =~= ref_pairs_view(b).drop_first());
        lemma_same_view_lookup(a.drop_first(), b.drop_first(), k);
    }
}

proof fn lemma_lookup_member(s: Seq<(Vec<u8>, Ref)>, k: Seq<u8>)
    ensures
        lookup(s, k) matches Some(v) ==> exists|i: int| 0 <= i < s.len() && (#[trigger] s[i]).1 == v,
    decreases s.len(),
{
    if s.len() > 0 && s[0].0@ != k {
        lemma_lookup_member(s.drop_first(), k);
        if let Some(v) = lookup(s.drop_first(), k) {
            let i = choose|i: int| 0 <= i < s.drop_first().len() && (#[trigger] s.drop_first()[i]).1 == v;
            assert(s[i + 1] == s.drop_first()[i]);
        }
    } else if s.len() > 0 {
        assert(s[0].1 == s[0].1);
    }
}

proof fn lemma_after_pushes_wf(
    orig: Seq<(Vec<u8>, Ref)>,
    pushes: Seq<(Vec<u8>, Ref)>,
    descends: Seq<bool>,
    n: int,
    k: Seq<u8>,
)
    requires
        forall|i: int| 0 <= i < orig.len() ==> crate::wire::wf_ref((#[trigger] orig[i]).1@),
        forall|i: int| 0 <= i < pushes.len() ==> crate::wire::wf_ref((#[trigger] pushes[i]).1@),
        n <= pushes.len(),
    ensures
        after_pushes(orig, ref_pairs_view(pushes), descends, n, k) matches Some(x) ==> crate::wire::wf_ref(x),
    decreases n,
{
    if n <= 0 {
        lemma_lookup_member(orig, k);
    } else {
        assert(ref_pairs_view(pushes)[n - 1] == (pushes[n - 1].0@, pushes[n - 1].1@));
        lemma_after_pushes_wf(orig, pushes, descends, n - 1, k);
    }
}

proof fn lemma_after_force_wf_at(
    orig: Seq<(Vec<u8>, Ref)>,
    pushes: Seq<(Vec<u8>, Ref)>,
    descends: Seq<bool>,
    force: Seq<(Vec<u8>, Option<Ref>)>,
    n: int,
    k: Seq<u8>,
)
    requires
        forall|i: int| 0 <= i < orig.len() ==> crate::wire::wf_ref((#[trigger] orig[i]).1@),
        forall|i: int| 0 <= i < pushes.len() ==> crate::wire::wf_ref((#[trigger] pushes[i]).1@),
        forall|i: int| 0 <= i < force.len() ==> ((#[trigger] force[i]).1 matches Some(x) ==> crate::wire::wf_ref(x@)),
        n <= force.len(),
    ensures
        after_force(orig, ref_pairs_view(pushes), descends, force_pairs_view(force), n, k) matches Some(x)
            ==> crate::wire::wf_ref(x),
    decreases n,
{
    if n <= 0 {
        lemma_after_pushes_wf(orig, pushes, descends, pushes.len() as int, k);
    } else {
        assert(force_pairs_view(force)[n - 1].1 == match force[n - 1].1 {
            Some(r) => Some(r@),
            None => None::<WireRef>,
        });
        lemma_after_force_wf_at(orig, pushes, descends, force, n - 1, k);
    }
}

/// Every value the updated table holds is well formed.
proof fn lemma_after_force_wf(
    orig: Seq<(Vec<u8>, Ref)>,
    pushes: Seq<(Vec<u8>, Ref)>,
    descends: Seq<bool>,
    force: Seq<(Vec<u8>, Option<Ref>)>,
    out: Seq<(Vec<u8>, Ref)>,
    n: int,
)
    requires
        ascending(out),
        forall|i: int| 0 <= i < orig.len() ==> crate::wire::wf_ref((#[trigger] orig[i]).1@),
        forall|i: int| 0 <= i < pushes.len() ==> crate::wire::wf_ref((#[trigger] pushes[i]).1@),
        forall|i: int| 0 <= i < force.len() ==> ((#[trigger] force[i]).1 matches Some(x) ==> crate::wire::wf_ref(x@)),
        n == force.len(),
        forall|k: Seq<u8>| #[trigger] ref_value(out, k) == after_force(orig, ref_pairs_view(pushes), descends, force_pairs_view(force), n, k),
    ensures
        forall|i: int| 0 <= i < out.len() ==> crate::wire::wf_ref((#[trigger] out[i]).1@),
{
    assert forall|i: int| 0 <= i < out.len() implies crate::wire::wf_ref((#[trigger] out[i]).1@) by {
        crate::table::lemma_lookup_ascending(out, i);
        assert(ref_value(out, out[i].0@) == Some(out[i].1@));
        lemma_after_force_wf_at(orig, pushes, descends, force, n, out[i].0@);
    }
}

/// The namespace blob stored under `k`, as a value.
pub open spec fn namespace_value(s: Seq<(Vec<u8>, NamespaceRef)>, k: Seq<u8>) -> Option<WireBlob> {
    match lookup(s, k) {
        Some(r) => Some(r.0@),
        None => None,
    }
}

/// The state a push produces: its only logical parent is the state it was
/// built on (if any), and namespace `namespace` now lives in `namespace_ref`;
/// every other namespace is kept.
pub fn update_state_with_push(
    state: State,
    parent: Option<StateRef>,
    namespace: &[u8],
    namespace_ref: NamespaceRef,
) -> (r: State)
    requires
        state.wf(),
        crate::wire::wf_blob(namespace_ref.0@),
        namespace_ref.0.resource_key.wf(),
        parent matches Some(p) ==> crate::wire::wf_blob(p.0@) && p.0.resource_key.wf(),
    ensures
        r.wf(),
        r@.parents == (match parent {
            Some(p) => seq![p.0@],
            None => Seq::<WireBlob>::empty(),
        }),
        namespace_value(r.namespaces@, namespace@) == Some(namespace_ref.0@),
        forall|k: Seq<u8>| k != namespace@ ==> #[trigger] namespace_value(r.namespaces@, k) == namespace_value(
            state.namespaces@,
            k,
        ),
{
    let ghost old_ns = state.namespaces@;
    let ghost nv = namespace_ref.0@;
    let mut namespaces = state.namespaces;
    proof {
        assert forall|i: int| 0 <= i < old_ns.len() implies crate::wire::wf_blob((#[trigger] old_ns[i]).1.0@)
            && old_ns[i].1.0.resource_key.wf() by {
            assert(state@.namespaces[i].1 == old_ns[i].1.0@);
        }
    }
    table_set(&mut namespaces, copy_bytes(namespace), namespace_ref);
    let mut parents: Vec<StateRef> = Vec::new();
    match parent {
        Some(p) => {
            parents.push(p);
        },
        None => {},
    }
    let r = State { namespaces, parents };
    proof {
        let p = |v: NamespaceRef| crate::wire::wf_blob(v.0@) && v.0.resource_key.wf();
        assert forall|k: Seq<u8>| #[trigger] lookup(r.namespaces@, k) matches Some(v) ==> p(v) by {
            if k != namespace@ {
                crate::table::lemma_lookup_in(old_ns, k);
            }
        }
        crate::table::lemma_all_values(r.namespaces@, p);
        assert forall|i: int| 0 <= i < r@.namespaces.len() implies crate::wire::wf_blob(#[trigger] r@.namespaces[i].1) by {
            assert(r@.namespaces[i].1 == r.namespaces@[i].1.0@);
            assert(p(r.namespaces@[i].1));
        }
        assert forall|i: int| 0 <= i < r.namespaces@.len() implies (#[trigger] r.namespaces@[i]).1.0.resource_key.wf() by {
            assert(p(r.namespaces@[i].1));
        }
        assert forall|i: int| 0 <= i < r@.namespaces.len() - 1 implies #[trigger] crate::bytes::lex_lt(
            r@.namespaces[i].0,
            r@.namespaces[i + 1].0,
        ) by {
            assert(crate::bytes::lex_lt(r.namespaces@[i].0@, r.namespaces@[i + 1].0@));
        }
        assert(r@.parents =~= (match parent {
            Some(p) => seq![p.0@],
            None => Seq::<WireBlob>::empty(),
        }));
    }
    r
}

/// The most attempts a push makes before it gives up on a busy upstream.
pub const MAX_PUSH_ATTEMPTS: usize = 25;

/// What follows an attempt to push the new state upstream.
#[derive(Debug, Clone, Copy, PartialEq, Eq)]
pub enum PushOutcome {
    /// The upstream took the push: report each ref's status.
    Reported,
    /// The upstream moved meanwhile: start over.
    Retry,
    /// The upstream refused the push and has not moved: fail.
    Failed,
}

/// Decides the outcome of an upstream push from whether it succeeded and
/// the upstream state's inner hash before the attempt and after it.
pub fn push_outcome(pushed: bool, before: Option<&[u8]>, after: Option<&[u8]>) -> (r: PushOutcome)
    ensures
        pushed ==> r == PushOutcome::Reported,
        !pushed ==> (r == PushOutcome::Retry <==> crate::history::opt_view(before) != crate::history::opt_view(after)),
        !pushed ==> (r == PushOutcome::Failed <==> crate::history::opt_view(before) == crate::history::opt_view(after)),
{
    if pushed {
        return PushOutcome::Reported;
    }
    let same = match (before, after) {
        (Some(a), Some(b)) => bytes_eq(a, b),
        (None, None) => true,
        _ => false,
    };
    if same {
        PushOutcome::Failed
    } else {
        PushOutcome::Retry
    }
}

/// The object ids that a list of refs pointed to when captured, in order.
pub open spec fn oids_of(refs: Seq<WireRef>) -> Seq<Seq<u8>>
    decreases refs.len(),
{
    if refs.len() == 0 {
        Seq::empty()
    } else {
        let rest = oids_of(refs.drop_last());
        match oid_at(refs.last()) {
            Some(x) => rest.push(x),
            None => rest,
        }
    }
}

/// The targets of forced pushes that are not deletions.
pub open spec fn forced_targets(s: Seq<(Vec<u8>, Option<Ref>)>) -> Seq<WireRef>
    decreases s.len(),
{
    if s.len() == 0 {
        Seq::empty()
    } else {
        let rest = forced_targets(s.drop_last());
        match s.last().1 {
            Some(r) => rest.push(r@),
            None => rest,
        }
    }
}

pub open spec fn pushed_targets(s: Seq<(Vec<u8>, Ref)>) -> Seq<WireRef> {
    s.map_values(|p: (Vec<u8>, Ref)| p.1@)
}

pub open spec fn refs_values(s: Seq<Ref>) -> Seq<WireRef> {
    s.map_values(|r: Ref| r@)
}

proof fn lemma_oids_push(refs: Seq<WireRef>, r: WireRef)
    ensures
        oids_of(refs.push(r)) == match oid_at(r) {
            Some(x) => oids_of(refs).push(x),
            None => oids_of(refs),
        },
{
    assert(refs.push(r).drop_last() =~= refs);
}

fn append_oid(out: &mut Vec<Vec<u8>>, r: &Ref)
    ensures
        ids_view(final(out)@) == match oid_at(r@) {
            Some(x) => ids_view(old(out)@).push(x),
            None => ids_view(old(out)@),
        },
{
    match r.oid_at_time() {
        Some(id) => {
            let ghost prev = ids_view(out@);
            out.push(id);
            assert(ids_view(out@) =~= prev.push(id@));
        },
        None => {},
    }
}

/// The revisions a pack must hold: what each push sets its ref to.
pub fn pack_includes(pushes: &Vec<(Vec<u8>, Ref)>, force_pushes: &Vec<(Vec<u8>, Option<Ref>)>) -> (r: Vec<Vec<u8>>)
    ensures
        ids_view(r@) == oids_of(pushed_targets(pushes@) + forced_targets(force_pushes@)),
{
    let mut out: Vec<Vec<u8>> = Vec::new();
    let ghost ps = pushed_targets(pushes@);
    let mut i: usize = 0;
    while i < pushes.len()
        invariant
            ps == pushed_targets(pushes@),
            0 <= i <= pushes@.len(),
            ids_view(out@) == oids_of(ps.take(i as int)),
        decreases pushes@.len() - i,
    {
        append_oid(&mut out, &pushes[i].1);
        proof {
            assert(ps.take(i as int + 1) =~= ps.take(i as int).push(pushes@[i as int].1@));
            lemma_oids_push(ps.take(i as int), pushes@[i as int].1@);
        }
        i = i + 1;
    }
    assert(ps.take(pushes@.len() as int) =~= ps);
    let mut j: usize = 0;
    while j < force_pushes.len()
        invariant
            ps == pushed_targets(pushes@),
            0 <= j <= force_pushes@.len(),
            ids_view(out@) == oids_of(ps + forced_targets(force_pushes@.take(j as int))),
        decreases force_pushes@.len() - j,
    {
        proof {
            assert(force_pushes@.take(j as int + 1).drop_last() =~= force_pushes@.take(j as int));
        }
        match &force_pushes[j].1 {
            Some(target) => {
                append_oid(&mut out, target);
                proof {
                    let f = forced_targets(force_pushes@.take(j as int));
                    assert(ps + f.push(target@) =~= (ps + f).push(target@));
                    lemma_oids_push(ps + f, target@);
                }
            },
            None => {},
        }
        j = j + 1;
    }
    assert(force_pushes@.take(force_pushes@.len() as int) =~= force_pushes@);
    out
}

/// The revisions a pack may leave out: what the namespace's refs pointed
/// to, and the shallow basis.
pub fn pack_exclusions(namespace: &Namespace, shallow_basis: &Vec<Ref>) -> (r: Vec<Vec<u8>>)
    ensures
        ids_view(r@) == oids_of(pushed_targets(namespace.refs@) + refs_values(shallow_basis@)),
{
    let mut out: Vec<Vec<u8>> = Vec::new();
    let ghost ps = pushed_targets(namespace.refs@);
    let mut i: usize = 0;
    while i < namespace.refs.len()
        invariant
            ps == pushed_targets(namespace.refs@),
            0 <= i <= namespace.refs@.len(),
            ids_view(out@) == oids_of(ps.take(i as int)),
        decreases namespace.refs@.len() - i,
    {
        append_oid(&mut out, &namespace.refs[i].1);
        proof {
            assert(ps.take(i as int + 1) =~= ps.take(i as int).push(namespace.refs@[i as int].1@));
            lemma_oids_push(ps.take(i as int), namespace.refs@[i as int].1@);
        }
        i = i + 1;
    }
    assert(ps.take(namespace.refs@.len() as int) =~= ps);
    let ghost bs = refs_values(shallow_basis@);
    let mut j: usize = 0;
    while j < shallow_basis.len()
        invariant
            ps == pushed_targets(namespace.refs@),
            bs == refs_values(shallow_basis@),
            0 <= j <= shallow_basis@.len(),
            ids_view(out@) == oids_of(ps + bs.take(j as int)),
        decreases shallow_basis@.len() - j,
    {
        append_oid(&mut out, &shallow_basis[j]);
        proof {
            assert(ps + bs.take(j as int + 1) =~= (ps + bs.take(j as int)).push(shallow_basis@[j as int]@));
            lemma_oids_push(ps + bs.take(j as int), shallow_basis@[j as int]@);
        }
        j = j + 1;
    }
    assert(bs.take(shallow_basis@.len() as int) =~= bs);
    out
}

} // verus!
