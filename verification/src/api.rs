//! Hazard orderings for the suggestion service, and the decisions of one suggestion request:
//! which hazard node list to send on each attempt, and what a reply means.
use vstd::prelude::*;
use vstd::multiset::Multiset;
use crate::text::{
    chars_of, concat, concat_strings, copy_strings, decimal, push_decimal, push_str, seen_contains,
    views, vviews,
};

verus! {

broadcast use vstd::seq_lib::group_seq_properties;

/// The orderings of `s` in the order the recursive enumeration visits them:
/// for each position `i` in turn, `s[i]` first followed by every ordering of the rest.
pub open spec fn perms(s: Seq<Seq<char>>) -> Seq<Seq<Seq<char>>>
    decreases s.len(), s.len() + 1,
{
    if s.len() == 0 {
        seq![Seq::<Seq<char>>::empty()]
    } else {
        perms_from(s, 0)
    }
}

/// The orderings of `s` that start with `s[i]`, `s[i + 1]`, ... in turn.
pub open spec fn perms_from(s: Seq<Seq<char>>, i: int) -> Seq<Seq<Seq<char>>>
    decreases s.len(), s.len() - i,
{
    if i < 0 || i >= s.len() {
        Seq::empty()
    } else {
        perm_block(s, i) + perms_from(s, i + 1)
    }
}

/// The orderings of `s` that start with `s[i]`.
pub open spec fn perm_block(s: Seq<Seq<char>>, i: int) -> Seq<Seq<Seq<char>>>
    decreases s.len(), 0int,
{
    if 0 <= i < s.len() {
        perms(s.remove(i)).map_values(|p: Seq<Seq<char>>| seq![s[i]] + p)
    } else {
        Seq::empty()
    }
}

/// The first `i` blocks of `perms_from(s, 0)`.
pub open spec fn perm_blocks(s: Seq<Seq<char>>, i: int) -> Seq<Seq<Seq<char>>>
    decreases i,
{
    if i <= 0 {
        Seq::empty()
    } else {
        perm_blocks(s, i - 1) + perm_block(s, i - 1)
    }
}

/// Each ordering of `prefix + ...`: `prefix` followed by each of `ps`.
pub open spec fn with_prefix(prefix: Seq<Seq<char>>, ps: Seq<Seq<Seq<char>>>) -> Seq<Seq<Seq<char>>> {
    ps.map_values(|p: Seq<Seq<char>>| prefix + p)
}

/// Keeps each candidate ordering whose joined ids were not seen before, first come first kept.
/// Returns the keys seen afterwards and the orderings kept.
pub open spec fn dedup(seen: Seq<Seq<char>>, cands: Seq<Seq<Seq<char>>>) -> (Seq<Seq<char>>, Seq<Seq<Seq<char>>>)
    decreases cands.len(),
{
    if cands.len() == 0 {
        (seen, Seq::empty())
    } else {
        let (s, e) = dedup(seen, cands.drop_last());
        let k = concat(cands.last());
        if s.contains(k) {
            (s, e)
        } else {
            (s.push(k), e.push(cands.last()))
        }
    }
}

/// The hazard orderings tried in turn: the given order first, then every other ordering of
/// the ids, leaving out any whose joined node list was already produced.
pub open spec fn orderings_of(ids: Seq<Seq<char>>) -> Seq<Seq<Seq<char>>> {
    dedup(Seq::empty(), seq![ids] + perms(ids)).1
}

/// The view of a list of orderings held as strings.
pub open spec fn orderings_view(v: Seq<Vec<String>>) -> Seq<Seq<Seq<char>>> {
    v.map_values(|o: Vec<String>| views(o@))
}

proof fn lemma_dedup_append(seen: Seq<Seq<char>>, a: Seq<Seq<Seq<char>>>, b: Seq<Seq<Seq<char>>>)
    ensures
        dedup(seen, a + b) == (dedup(dedup(seen, a).0, b).0, dedup(seen, a).1 + dedup(dedup(seen, a).0, b).1),
    decreases b.len(),
{
    if b.len() == 0 {
        assert(a + b == a);
        assert(dedup(seen, a).1 + Seq::<Seq<Seq<char>>>::empty() == dedup(seen, a).1);
    } else {
        lemma_dedup_append(seen, a, b.drop_last());
        assert((a + b).drop_last() == a + b.drop_last());
        assert((a + b).last() == b.last());
        let (s1, e1) = dedup(seen, a);
        let (s2, e2) = dedup(s1, b.drop_last());
        let k = concat(b.last());
        if !s2.contains(k) {
            assert(e1 + e2.push(b.last()) == (e1 + e2).push(b.last()));
        }
    }
}

proof fn lemma_perm_blocks_all(s: Seq<Seq<char>>, i: int)
    requires
        0 <= i <= s.len(),
    ensures
        perm_blocks(s, i) + perms_from(s, i) == perms_from(s, 0),
    decreases i,
{
    if i > 0 {
        lemma_perm_blocks_all(s, i - 1);
        assert(perms_from(s, i - 1) == perm_block(s, i - 1) + perms_from(s, i));
        assert(perm_blocks(s, i) + perms_from(s, i) == perm_blocks(s, i - 1) + (perm_block(s, i - 1)
            + perms_from(s, i)));
    } else {
        assert(perm_blocks(s, 0) + perms_from(s, 0) == perms_from(s, 0));
    }
}

proof fn lemma_with_prefix_add(prefix: Seq<Seq<char>>, a: Seq<Seq<Seq<char>>>, b: Seq<Seq<Seq<char>>>)
    ensures
        with_prefix(prefix, a + b) == with_prefix(prefix, a) + with_prefix(prefix, b),
{
    assert(with_prefix(prefix, a + b) =~= with_prefix(prefix, a) + with_prefix(prefix, b));
}

proof fn lemma_block_prefix(prefix: Seq<Seq<char>>, s: Seq<Seq<char>>, i: int)
    requires
        0 <= i < s.len(),
    ensures
        with_prefix(prefix.push(s[i]), perms(s.remove(i))) == with_prefix(prefix, perm_block(s, i)),
{
    let ps = perms(s.remove(i));
    assert forall|j: int| 0 <= j < ps.len() implies with_prefix(prefix.push(s[i]), ps)[j]
        == with_prefix(prefix, perm_block(s, i))[j] by {
        assert(prefix.push(s[i]) + ps[j] =~= prefix + (seq![s[i]] + ps[j]));
    }
    assert(with_prefix(prefix.push(s[i]), ps) =~= with_prefix(prefix, perm_block(s, i)));
}

/// The characters of the ids joined without separator.
fn concat_key(v: &Vec<String>) -> (r: Vec<char>)
    ensures
        r@ == concat(views(v@)),
{
    let s = concat_strings(v);
    chars_of(s.as_str())
}

/// Visits every ordering of `rest` after `prefix`, keeping those whose joined ids are new.
fn permute(
    prefix: &mut Vec<String>,
    rest: Vec<String>,
    seen: &mut Vec<Vec<char>>,
    out: &mut Vec<Vec<String>>,
)
    ensures
        views(final(prefix)@) == views(old(prefix)@),
        vviews(final(seen)@) == dedup(vviews(old(seen)@), with_prefix(views(old(prefix)@), perms(views(rest@)))).0,
        orderings_view(final(out)@) == orderings_view(old(out)@) + dedup(
            vviews(old(seen)@),
            with_prefix(views(old(prefix)@), perms(views(rest@))),
        ).1,
    decreases rest@.len(),
{
    let ghost p0 = views(prefix@);
    let ghost s0 = vviews(seen@);
    let ghost o0 = orderings_view(out@);
    let ghost r = views(rest@);
    if rest.len() == 0 {
        let key = concat_key(prefix);
        let ghost cands = with_prefix(p0, perms(r));
        assert(r =~= Seq::<Seq<char>>::empty());
        assert(cands =~= seq![p0]);
        assert(p0 + Seq::<Seq<char>>::empty() == p0);
        assert(cands.drop_last() =~= Seq::<Seq<Seq<char>>>::empty());
        assert(dedup(s0, Seq::<Seq<Seq<char>>>::empty()) == (s0, Seq::<Seq<Seq<char>>>::empty()));
        assert(cands.last() == p0);
        if !seen_contains(seen, &key) {
            seen.push(key);
            let copy = copy_strings(prefix);
            out.push(copy);
            assert(vviews(seen@) =~= s0.push(concat(p0)));
            assert(orderings_view(out@) =~= o0 + seq![p0]);
        } else {
            assert(orderings_view(out@) =~= o0 + Seq::<Seq<Seq<char>>>::empty());
        }
        return;
    }
    assert(perms(r) == perms_from(r, 0));
    let mut i: usize = 0;
    while i < rest.len()
        invariant
            i <= rest.len(),
            r == views(rest@),
            r.len() > 0,
            views(prefix@) == p0,
            vviews(seen@) == dedup(s0, with_prefix(p0, perm_blocks(r, i as int))).0,
            orderings_view(out@) == o0 + dedup(s0, with_prefix(p0, perm_blocks(r, i as int))).1,
        decreases rest.len() - i,
    {
        let ghost seen_before = vviews(seen@);
        let ghost out_before = orderings_view(out@);
        prefix.push(rest[i].clone());
        assert(views(prefix@) =~= p0.push(r[i as int]));
        let mut next = copy_strings(&rest);
        next.remove(i);
        assert(views(next@) =~= r.remove(i as int));
        permute(prefix, next, seen, out);
        let ghost pushed = prefix@;
        prefix.pop();
        assert(prefix@ == pushed.drop_last());
        assert(views(pushed) == p0.push(r[i as int]));
        assert(views(prefix@) =~= views(pushed).drop_last());
        assert(views(prefix@) =~= p0);
        proof {
            lemma_block_prefix(p0, r, i as int);
            let a = with_prefix(p0, perm_blocks(r, i as int));
            let b = with_prefix(p0, perm_block(r, i as int));
            lemma_with_prefix_add(p0, perm_blocks(r, i as int), perm_block(r, i as int));
            lemma_dedup_append(s0, a, b);
            assert(with_prefix(p0, perm_blocks(r, i + 1)) == a + b);
            assert(orderings_view(out@) =~= o0 + dedup(s0, a + b).1);
        }
        i = i + 1;
    }
    proof {
        lemma_perm_blocks_all(r, r.len() as int);
        assert(perms_from(r, r.len() as int) =~= Seq::<Seq<Seq<char>>>::empty());
        assert(perm_blocks(r, r.len() as int) + Seq::<Seq<Seq<char>>>::empty() == perm_blocks(
            r,
            r.len() as int,
        ));
    }
}

/// Every ordering of the hazard source ids worth sending: the given order first, then the other
/// orderings, each distinct node list once.
pub fn hazard_orderings(ids: &Vec<String>) -> (r: Vec<Vec<String>>)
    ensures
        orderings_view(r@) == orderings_of(views(ids@)),
{
    let ghost iv = views(ids@);
    let mut out: Vec<Vec<String>> = Vec::new();
    let mut seen: Vec<Vec<char>> = Vec::new();
    let seed = copy_strings(ids);
    let key = concat_key(&seed);
    seen.push(key);
    out.push(seed);
    let ghost first = seq![iv];
    proof {
        assert(first.drop_last() =~= Seq::<Seq<Seq<char>>>::empty());
        assert(dedup(Seq::<Seq<char>>::empty(), Seq::<Seq<Seq<char>>>::empty()) == (
            Seq::<Seq<char>>::empty(),
            Seq::<Seq<Seq<char>>>::empty(),
        ));
        assert(!Seq::<Seq<char>>::empty().contains(concat(iv)));
        assert(dedup(Seq::empty(), first) == (seq![concat(iv)], seq![iv]));
        assert(vviews(seen@) =~= seq![concat(iv)]);
        assert(orderings_view(out@) =~= seq![iv]);
    }
    let mut prefix: Vec<String> = Vec::new();
    let rest = copy_strings(ids);
    assert(views(prefix@) =~= Seq::<Seq<char>>::empty());
    permute(&mut prefix, rest, &mut seen, &mut out);
    proof {
        let cands = perms(iv);
        assert(with_prefix(Seq::<Seq<char>>::empty(), cands) =~= cands) by {
            assert forall|j: int| 0 <= j < cands.len() implies with_prefix(
                Seq::<Seq<char>>::empty(),
                cands,
            )[j] == cands[j] by {
                assert(Seq::<Seq<char>>::empty() + cands[j] =~= cands[j]);
            }
        }
        lemma_dedup_append(Seq::empty(), first, cands);
    }
    out
}


// ---------------------------------------------------------------------------
// One suggestion request
// ---------------------------------------------------------------------------

/// Above this many selected hazards only the given order is tried.
pub const HARD_CAP: usize = 6;

/// The suggestion service's answer: the fleet lines, and on which of how many hazard orderings
/// it was found.
pub struct ApiResult {
    pub lines: Vec<String>,
    pub attempt: usize,
    pub total: usize,
}

/// The hazard orderings a request tries in turn, and how many hazard sources were selected.
pub struct SuggestPlan {
    pub orderings: Vec<Vec<String>>,
    pub source_count: usize,
}

/// The orderings tried for the selected hazard sources: every distinct ordering, or only the
/// given order when more than `HARD_CAP` are selected.
pub open spec fn planned_orderings(ids: Seq<Seq<char>>) -> Seq<Seq<Seq<char>>> {
    if ids.len() > HARD_CAP {
        seq![ids]
    } else {
        orderings_of(ids)
    }
}

/// Plans a request for the selected hazard sources.
pub fn plan_suggestion(source_ids: &Vec<String>) -> (r: SuggestPlan)
    ensures
        orderings_view(r.orderings@) == planned_orderings(views(source_ids@)),
        r.source_count == source_ids@.len(),
{
    let orderings = if source_ids.len() > HARD_CAP {
        let mut v: Vec<Vec<String>> = Vec::new();
        v.push(copy_strings(source_ids));
        assert(orderings_view(v@) =~= seq![views(source_ids@)]);
        v
    } else {
        hazard_orderings(source_ids)
    };
    SuggestPlan { orderings, source_count: source_ids.len() }
}

/// The hazard node list sent on attempt `i` (counted from zero): the ids of the `i`-th
/// ordering joined without separator.
pub fn node_list(plan: &SuggestPlan, i: usize) -> (r: String)
    requires
        i < plan.orderings@.len(),
    ensures
        r@ == concat(orderings_view(plan.orderings@)[i as int]),
{
    concat_strings(&plan.orderings[i])
}

/// Whether progress is reported: only when more than one ordering is tried.
pub fn shows_progress(plan: &SuggestPlan) -> (r: bool)
    ensures
        r == (plan.orderings@.len() > 1),
{
    plan.orderings.len() > 1
}

/// What to do with the reply to attempt `i`.
pub enum Reply {
    /// The reply holds the suggestions; they came on this attempt (counted from one) of this many.
    Accept { attempt: usize, total: usize },
    /// Not found for this ordering: try the next one.
    TryNext,
    /// Give up with this message.
    Fail(String),
}

/// The message for a reply that is neither a success nor `404`.
pub open spec fn status_message(status: u16) -> Seq<char> {
    "Server returned "@ + decimal(status as nat)
}

/// What to do with the reply to attempt `i`: a success is accepted, `404` moves on to the
/// next ordering, any other status ends the request.
pub fn on_reply(plan: &SuggestPlan, i: usize, ok: bool, status: u16) -> (r: Reply)
    requires
        i < plan.orderings@.len(),
    ensures
        ok ==> r == (Reply::Accept { attempt: (i + 1) as usize, total: plan.orderings@.len() as usize }),
        !ok && status != 404 ==> (r matches Reply::Fail(m) && m@ == status_message(status)),
        !ok && status == 404 ==> r == Reply::TryNext,
{
    let total = plan.orderings.len();
    if ok {
        Reply::Accept { attempt: i + 1, total }
    } else if status != 404 {
        let mut m = String::new();
        push_str(&mut m, "Server returned ");
        push_decimal(&mut m, status as u64);
        Reply::Fail(m)
    } else {
        Reply::TryNext
    }
}

/// The message when every ordering was answered with `404`.
pub open spec fn exhausted_message_of(source_count: nat, total: nat) -> Seq<char> {
    if source_count > HARD_CAP {
        "Server returned 404 (and "@ + decimal(source_count)
            + " hazards > 6, so permutations weren't tried)"@
    } else {
        "Server returned 404 for all "@ + decimal(total) + " hazard order"@ + if total == 1 {
            ""@
        } else {
            "ings"@
        }
    }
}

/// The message when every ordering was answered with `404`.
pub fn exhausted_message(plan: &SuggestPlan) -> (r: String)
    ensures
        r@ == exhausted_message_of(plan.source_count as nat, plan.orderings@.len()),
{
    let mut m = String::new();
    if plan.source_count > HARD_CAP {
        push_str(&mut m, "Server returned 404 (and ");
        push_decimal(&mut m, plan.source_count as u64);
        push_str(&mut m, " hazards > 6, so permutations weren't tried)");
    } else {
        push_str(&mut m, "Server returned 404 for all ");
        push_decimal(&mut m, plan.orderings.len() as u64);
        push_str(&mut m, " hazard order");
        if plan.orderings.len() == 1 {
            push_str(&mut m, "");
        } else {
            push_str(&mut m, "ings");
        }
    }
    assert(m@ =~= exhausted_message_of(plan.source_count as nat, plan.orderings@.len()));
    m
}

proof fn lemma_perms_rearrange(s: Seq<Seq<char>>)
    ensures
        forall|j: int| 0 <= j < perms(s).len() ==> (#[trigger] perms(s)[j]).to_multiset() == s.to_multiset(),
    decreases s.len(), s.len() + 1,
{
    if s.len() == 0 {
        assert(perms(s) == seq![Seq::<Seq<char>>::empty()]);
        assert(s =~= Seq::<Seq<char>>::empty());
        assert(perms(s)[0] == s);
    } else {
        lemma_perms_from_rearrange(s, 0);
        assert(perms(s) == perms_from(s, 0));
    }
}

proof fn lemma_perms_from_rearrange(s: Seq<Seq<char>>, i: int)
    requires
        0 <= i,
    ensures
        forall|j: int| 0 <= j < perms_from(s, i).len() ==> (#[trigger] perms_from(s, i)[j]).to_multiset()
            == s.to_multiset(),
    decreases s.len(), s.len() - i,
{
    if i < s.len() {
        lemma_perm_block_rearrange(s, i);
        lemma_perms_from_rearrange(s, i + 1);
        let a = perm_block(s, i);
        let b = perms_from(s, i + 1);
        assert(perms_from(s, i) == a + b);
        assert forall|j: int| 0 <= j < (a + b).len() implies (#[trigger] (a + b)[j]).to_multiset()
            == s.to_multiset() by {
            if j < a.len() {
                assert((a + b)[j] == a[j]);
            } else {
                assert((a + b)[j] == b[j - a.len()]);
            }
        }
    }
}

proof fn lemma_perm_block_rearrange(s: Seq<Seq<char>>, i: int)
    requires
        0 <= i < s.len(),
    ensures
        forall|j: int| 0 <= j < perm_block(s, i).len() ==> (#[trigger] perm_block(s, i)[j]).to_multiset()
            == s.to_multiset(),
    decreases s.len(), 0int,
{
    broadcast use vstd::multiset::group_multiset_axioms;
    let r = s.remove(i);
    lemma_perms_rearrange(r);
    vstd::seq_lib::to_multiset_remove(s, i);
    vstd::seq_lib::to_multiset_contains(s, s[i]);
    assert forall|j: int| 0 <= j < perm_block(s, i).len() implies (#[trigger] perm_block(
        s,
        i,
    )[j]).to_multiset() == s.to_multiset() by {
        let q = perms(r)[j];
        assert(perm_block(s, i)[j] == seq![s[i]] + q);
        vstd::seq_lib::lemma_multiset_commutative(seq![s[i]], q);
        assert(seq![s[i]].to_multiset() =~= Multiset::singleton(s[i])) by {
            assert(seq![s[i]] =~= Seq::<Seq<char>>::empty().push(s[i]));
            vstd::seq_lib::to_multiset_build(Seq::<Seq<char>>::empty(), s[i]);
        }
        assert(Multiset::singleton(s[i]).add(s.to_multiset().remove(s[i])) =~= s.to_multiset());
    }
}

proof fn lemma_perms_from_has_block(s: Seq<Seq<char>>, lo: int, i: int, j: int)
    requires
        0 <= lo <= i < s.len(),
        0 <= j < perm_block(s, i).len(),
    ensures
        perms_from(s, lo).contains(perm_block(s, i)[j]),
    decreases i - lo,
{
    let a = perm_block(s, lo);
    let b = perms_from(s, lo + 1);
    assert(perms_from(s, lo) == a + b);
    if lo == i {
        assert((a + b)[j] == a[j]);
    } else {
        lemma_perms_from_has_block(s, lo + 1, i, j);
        let k = choose|k: int| 0 <= k < b.len() && b[k] == perm_block(s, i)[j];
        assert((a + b)[a.len() + k] == b[k]);
    }
}

proof fn lemma_perms_complete(s: Seq<Seq<char>>, p: Seq<Seq<char>>)
    requires
        p.to_multiset() == s.to_multiset(),
    ensures
        perms(s).contains(p),
    decreases s.len(),
{
    broadcast use vstd::multiset::group_multiset_axioms;
    vstd::seq_lib::to_multiset_len(p);
    vstd::seq_lib::to_multiset_len(s);
    if s.len() == 0 {
        assert(p =~= Seq::<Seq<char>>::empty());
        assert(perms(s)[0] == p);
    } else {
        let x = p[0];
        vstd::seq_lib::to_multiset_contains(p, x);
        vstd::seq_lib::to_multiset_contains(s, x);
        assert(p.contains(x));
        let i = choose|i: int| 0 <= i < s.len() && s[i] == x;
        let rest = p.drop_first();
        vstd::seq_lib::to_multiset_remove(p, 0);
        vstd::seq_lib::to_multiset_remove(s, i);
        assert(p.remove(0) =~= rest);
        lemma_perms_complete(s.remove(i), rest);
        let j = choose|j: int| 0 <= j < perms(s.remove(i)).len() && perms(s.remove(i))[j] == rest;
        assert(perm_block(s, i)[j] == seq![s[i]] + rest);
        assert(seq![s[i]] + rest =~= p);
        lemma_perms_from_has_block(s, 0, i, j);
        assert(perms(s) == perms_from(s, 0));
    }
}

/// The joined node list of each ordering.
pub open spec fn keys_of(os: Seq<Seq<Seq<char>>>) -> Seq<Seq<char>> {
    os.map_values(|o: Seq<Seq<char>>| concat(o))
}

proof fn lemma_dedup_facts(seen: Seq<Seq<char>>, cands: Seq<Seq<Seq<char>>>)
    ensures
        dedup(seen, cands).0 == seen + keys_of(dedup(seen, cands).1),
        forall|k: int| 0 <= k < cands.len() ==> dedup(seen, cands).0.contains(concat(#[trigger] cands[k])),
        forall|j: int| 0 <= j < dedup(seen, cands).1.len() ==> cands.contains(#[trigger] dedup(seen, cands).1[j]),
        forall|a: int, b: int| 0 <= a < b < dedup(seen, cands).1.len() ==> concat(dedup(seen, cands).1[a])
            != concat(dedup(seen, cands).1[b]),
        forall|j: int| 0 <= j < dedup(seen, cands).1.len() ==> !seen.contains(concat(#[trigger] dedup(seen, cands).1[j])),
    decreases cands.len(),
{
    if cands.len() == 0 {
        assert(seen + keys_of(Seq::empty()) =~= seen);
    } else {
        let init = cands.drop_last();
        lemma_dedup_facts(seen, init);
        let (s0, e0) = dedup(seen, init);
        let c = cands.last();
        let k = concat(c);
        assert forall|x: int| 0 <= x < init.len() implies #[trigger] cands[x] == init[x] by {}
        if s0.contains(k) {
            assert forall|q: int| 0 <= q < cands.len() implies dedup(seen, cands).0.contains(concat(#[trigger] cands[q])) by {
                if q < init.len() {
                    assert(cands[q] == init[q]);
                }
            }
            assert forall|j: int| 0 <= j < e0.len() implies cands.contains(#[trigger] e0[j]) by {
                let w = choose|w: int| 0 <= w < init.len() && init[w] == e0[j];
                assert(cands[w] == e0[j]);
            }
        } else {
            let e = e0.push(c);
            assert(keys_of(e) =~= keys_of(e0).push(k));
            assert(s0.push(k) =~= seen + keys_of(e));
            assert forall|q: int| 0 <= q < cands.len() implies s0.push(k).contains(concat(#[trigger] cands[q])) by {
                if q < init.len() {
                    assert(cands[q] == init[q]);
                    let w = choose|w: int| 0 <= w < s0.len() && s0[w] == concat(init[q]);
                    assert(s0.push(k)[w] == concat(init[q]));
                } else {
                    assert(s0.push(k)[s0.len() as int] == k);
                }
            }
            assert forall|j: int| 0 <= j < e.len() implies cands.contains(#[trigger] e[j]) by {
                if j < e0.len() {
                    let w = choose|w: int| 0 <= w < init.len() && init[w] == e0[j];
                    assert(cands[w] == e[j]);
                } else {
                    assert(cands[cands.len() - 1] == e[j]);
                }
            }
            assert forall|a: int, b: int| 0 <= a < b < e.len() implies concat(e[a]) != concat(e[b]) by {
                if b == e0.len() {
                    assert(e[a] == e0[a]);
                    assert(s0[seen.len() + a] == concat(e0[a]));
                    assert(s0.contains(concat(e0[a])));
                } else {
                    assert(e[a] == e0[a] && e[b] == e0[b]);
                }
            }
            assert forall|j: int| 0 <= j < e.len() implies !seen.contains(concat(#[trigger] e[j])) by {
                if j == e0.len() {
                    if seen.contains(k) {
                        let w = choose|w: int| 0 <= w < seen.len() && seen[w] == k;
                        assert(s0[w] == k);
                    }
                } else {
                    assert(e[j] == e0[j]);
                }
            }
        }
    }
}

proof fn lemma_orderings_first(ids: Seq<Seq<char>>)
    ensures
        orderings_of(ids).len() >= 1,
        orderings_of(ids)[0] == ids,
{
    let first = seq![ids];
    lemma_dedup_append(Seq::empty(), first, perms(ids));
    assert(first.drop_last() =~= Seq::<Seq<Seq<char>>>::empty());
    assert(dedup(Seq::<Seq<char>>::empty(), Seq::<Seq<Seq<char>>>::empty()) == (
        Seq::<Seq<char>>::empty(),
        Seq::<Seq<Seq<char>>>::empty(),
    ));
    assert(!Seq::<Seq<char>>::empty().contains(concat(ids)));
    assert(first.last() == ids);
    assert(dedup(Seq::<Seq<char>>::empty(), first).1 =~= seq![ids]);
}

proof fn lemma_orderings_rearrange(ids: Seq<Seq<char>>)
    ensures
        forall|j: int| 0 <= j < orderings_of(ids).len() ==> (#[trigger] orderings_of(ids)[j]).to_multiset()
            == ids.to_multiset(),
        forall|a: int, b: int| 0 <= a < b < orderings_of(ids).len() ==> concat(orderings_of(ids)[a]) != concat(
            orderings_of(ids)[b],
        ),
{
    let cands = seq![ids] + perms(ids);
    let o = orderings_of(ids);
    lemma_dedup_facts(Seq::empty(), cands);
    lemma_perms_rearrange(ids);
    assert forall|j: int| 0 <= j < o.len() implies (#[trigger] o[j]).to_multiset() == ids.to_multiset() by {
        assert(cands.contains(o[j]));
        let w = choose|w: int| 0 <= w < cands.len() && cands[w] == o[j];
        if w > 0 {
            assert(cands[w] == perms(ids)[w - 1]);
        }
    }
}

proof fn lemma_orderings_complete(ids: Seq<Seq<char>>, p: Seq<Seq<char>>)
    requires
        p.to_multiset() == ids.to_multiset(),
    ensures
        exists|j: int| 0 <= j < orderings_of(ids).len() && concat(#[trigger] orderings_of(ids)[j]) == concat(p),
{
    let cands = seq![ids] + perms(ids);
    let o = orderings_of(ids);
    lemma_dedup_facts(Seq::empty(), cands);
    lemma_perms_complete(ids, p);
    let w = choose|w: int| 0 <= w < perms(ids).len() && perms(ids)[w] == p;
    assert(cands[w + 1] == p);
    let keys = dedup(Seq::<Seq<char>>::empty(), cands).0;
    assert(keys.contains(concat(cands[w + 1])));
    assert(keys =~= keys_of(o));
    let x = choose|x: int| 0 <= x < keys.len() && keys[x] == concat(p);
    assert(concat(o[x]) == concat(p));
}

proof fn lemma_orderings_single(ids: Seq<Seq<char>>)
    requires
        ids.len() <= 1,
    ensures
        orderings_of(ids) == seq![ids],
{
    let o = orderings_of(ids);
    lemma_orderings_first(ids);
    lemma_orderings_rearrange(ids);
    vstd::seq_lib::to_multiset_len(ids);
    if o.len() > 1 {
        assert(o[1].to_multiset() == ids.to_multiset());
        vstd::seq_lib::to_multiset_len(o[1]);
        if ids.len() == 1 {
            vstd::seq_lib::to_multiset_contains(o[1], o[1][0]);
            vstd::seq_lib::to_multiset_contains(ids, o[1][0]);
            assert(o[1][0] == ids[0]);
            assert(o[1] =~= ids);
        } else {
            assert(o[1] =~= ids);
        }
        assert(concat(o[0]) == concat(o[1]));
        assert(false);
    }
    assert(o =~= seq![ids]);
}

/// The hazard orderings tried: the given order first; each a rearrangement of the ids; no two
/// with the same node list; and every rearrangement of the ids has its node list among them.
/// With at most one id, only the given order is tried.
pub proof fn law_hazard_orderings(ids: Seq<Seq<char>>)
    ensures
        orderings_of(ids).len() >= 1,
        orderings_of(ids)[0] == ids,
        forall|j: int| 0 <= j < orderings_of(ids).len() ==> (#[trigger] orderings_of(ids)[j]).to_multiset()
            == ids.to_multiset(),
        forall|a: int, b: int| 0 <= a < b < orderings_of(ids).len() ==> concat(orderings_of(ids)[a]) != concat(
            orderings_of(ids)[b],
        ),
        forall|p: Seq<Seq<char>>| p.to_multiset() == ids.to_multiset() ==> exists|j: int|
            0 <= j < orderings_of(ids).len() && concat(#[trigger] orderings_of(ids)[j]) == concat(p),
        ids.len() <= 1 ==> orderings_of(ids) == seq![ids],
{
    lemma_orderings_first(ids);
    lemma_orderings_rearrange(ids);
    assert forall|p: Seq<Seq<char>>| p.to_multiset() == ids.to_multiset() implies exists|j: int|
        0 <= j < orderings_of(ids).len() && concat(#[trigger] orderings_of(ids)[j]) == concat(p) by {
        lemma_orderings_complete(ids, p);
    }
    if ids.len() <= 1 {
        lemma_orderings_single(ids);
    }
}

} // verus!
