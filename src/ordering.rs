use vstd::prelude::*;
use crate::options::FileStats;
use vstd::multiset::Multiset;

verus! {

broadcast use vstd::seq_lib::group_to_multiset_ensures;

/// What `str::to_lowercase` makes of a string.
pub uninterp spec fn lower_of(s: Seq<char>) -> Seq<char>;

/// Relies on `str::to_lowercase`: the Unicode lower-case mapping of each
/// character, which depends on the characters alone.
#[verifier::external_body]
pub(crate) fn lowercase_chars(s: &str) -> (r: Vec<char>)
    ensures
        r@ == lower_of(s@),
{
    s.to_lowercase().chars().collect()
}

/// Lexicographic order on character sequences, by code point, a proper
/// prefix first: the order of `String`'s comparison.
pub open spec fn lex_le(a: Seq<char>, b: Seq<char>) -> bool
    decreases a.len(),
{
    if a.len() == 0 {
        true
    } else if b.len() == 0 {
        false
    } else if a[0] != b[0] {
        (a[0] as int) < (b[0] as int)
    } else {
        lex_le(a.drop_first(), b.drop_first())
    }
}

/// Records in ascending order of their lower-cased paths.
pub open spec fn sorted_by_path(recs: Seq<FileStats>) -> bool {
    forall|i: int, j: int|
        0 <= i < j < recs.len() ==> lex_le(
            lower_of(#[trigger] recs[i].path@),
            lower_of(#[trigger] recs[j].path@),
        )
}

/// Of two sequences, one comes first.
pub proof fn lemma_lex_total(a: Seq<char>, b: Seq<char>)
    ensures
        lex_le(a, b) || lex_le(b, a),
    decreases a.len(),
{
    if a.len() > 0 && b.len() > 0 && a[0] == b[0] {
        lemma_lex_total(a.drop_first(), b.drop_first());
    }
}

/// Every sequence comes no later than itself.
pub proof fn lemma_lex_reflexive(a: Seq<char>)
    ensures
        lex_le(a, a),
    decreases a.len(),
{
    if a.len() > 0 {
        lemma_lex_reflexive(a.drop_first());
    }
}

/// The order is transitive.
pub proof fn lemma_lex_transitive(a: Seq<char>, b: Seq<char>, c: Seq<char>)
    requires
        lex_le(a, b),
        lex_le(b, c),
    ensures
        lex_le(a, c),
    decreases a.len(),
{
    if a.len() > 0 && b.len() > 0 && c.len() > 0 && a[0] == b[0] && b[0] == c[0] {
        lemma_lex_transitive(a.drop_first(), b.drop_first(), c.drop_first());
    }
}

/// Whether `a` comes no later than `b`.
pub fn chars_le(a: &Vec<char>, b: &Vec<char>) -> (r: bool)
    ensures
        r == lex_le(a@, b@),
{
    let mut i: usize = 0;
    assert(a@.skip(0) =~= a@ && b@.skip(0) =~= b@);
    while i < a.len() && i < b.len()
        invariant
            i <= a.len(),
            i <= b.len(),
            lex_le(a@, b@) == lex_le(a@.skip(i as int), b@.skip(i as int)),
        decreases a.len() - i,
    {
        if a[i] != b[i] {
            return a[i] < b[i];
        }
        assert(a@.skip(i as int).drop_first() =~= a@.skip(i + 1));
        assert(b@.skip(i as int).drop_first() =~= b@.skip(i + 1));
        i = i + 1;
    }
    i == a.len()
}

/// A sort key: characters, then a position that orders equal characters.
pub type Key = (Vec<char>, usize);

/// A record together with its sort key.
pub type Entry = (Key, FileStats);

/// Keys in order: by characters, and by position where the characters are
/// equal.
pub open spec fn key_le(a: Key, b: Key) -> bool {
    lex_le(a.0@, b.0@) && (a.0@ == b.0@ ==> a.1 <= b.1)
}

/// Two sequences that each come no later than the other are equal.
pub proof fn lemma_lex_antisymmetric(a: Seq<char>, b: Seq<char>)
    requires
        lex_le(a, b),
        lex_le(b, a),
    ensures
        a == b,
    decreases a.len(),
{
    if a.len() == 0 || b.len() == 0 {
        assert(a.len() == 0 && b.len() == 0);
    } else {
        assert(a[0] == b[0]);
        lemma_lex_antisymmetric(a.drop_first(), b.drop_first());
        assert(a.drop_first().len() == b.drop_first().len());
        assert(a.len() == b.len());
        assert forall|i: int| 0 <= i < a.len() implies a[i] == b[i] by {
            if i > 0 {
                assert(a[i] == a.drop_first()[i - 1]);
                assert(b[i] == b.drop_first()[i - 1]);
            }
        }
    }
    assert(a =~= b);
}

/// Of two keys, one comes first.
pub proof fn lemma_key_total(a: Key, b: Key)
    ensures
        key_le(a, b) || key_le(b, a),
{
    lemma_lex_total(a.0@, b.0@);
}

/// Every key comes no later than itself.
pub proof fn lemma_key_reflexive(a: Key)
    ensures
        key_le(a, a),
{
    lemma_lex_reflexive(a.0@);
}

/// The order of keys is transitive.
pub proof fn lemma_key_transitive(a: Key, b: Key, c: Key)
    requires
        key_le(a, b),
        key_le(b, c),
    ensures
        key_le(a, c),
{
    lemma_lex_transitive(a.0@, b.0@, c.0@);
    if a.0@ == c.0@ {
        lemma_lex_antisymmetric(a.0@, b.0@);
    }
}

/// Whether key `a` comes no later than key `b`.
pub fn key_le_exec(a: &Key, b: &Key) -> (r: bool)
    ensures
        r == key_le(*a, *b),
{
    let ab = chars_le(&a.0, &b.0);
    let ba = chars_le(&b.0, &a.0);
    if ab && ba {
        proof {
            lemma_lex_antisymmetric(a.0@, b.0@);
        }
        a.1 <= b.1
    } else {
        proof {
            lemma_lex_reflexive(a.0@);
        }
        ab
    }
}

/// Entries in ascending order of key.
pub open spec fn entries_sorted(s: Seq<Entry>) -> bool {
    forall|i: int, j: int| 0 <= i < j < s.len() ==> key_le(#[trigger] s[i].0, #[trigger] s[j].0)
}

/// Entries in descending order of key.
pub open spec fn entries_descending(s: Seq<Entry>) -> bool {
    forall|i: int, j: int| 0 <= i < j < s.len() ==> key_le(#[trigger] s[j].0, #[trigger] s[i].0)
}

/// Every key of `lo` comes no later than every key of `hi`.
pub open spec fn keys_below(lo: Seq<Entry>, hi: Seq<Entry>) -> bool {
    forall|i: int, j: int|
        0 <= i < lo.len() && 0 <= j < hi.len() ==> key_le(#[trigger] lo[i].0, #[trigger] hi[j].0)
}

/// Equal multisets stay equal when each element is mapped.
pub proof fn lemma_multiset_map<A, B>(s: Seq<A>, t: Seq<A>, f: spec_fn(A) -> B)
    requires
        s.to_multiset() == t.to_multiset(),
    ensures
        s.map_values(f).to_multiset() == t.map_values(f).to_multiset(),
    decreases s.len(),
{
    broadcast use vstd::multiset::group_multiset_axioms;

    if s.len() == 0 {
        assert(t.len() == t.to_multiset().len());
        assert(s.map_values(f) =~= t.map_values(f));
    } else {
        let a = s.last();
        let s1 = s.drop_last();
        assert(s =~= s1.push(a));
        assert(t.to_multiset().count(a) > 0);
        assert(t.contains(a));
        let j = t.index_of(a);
        let t1 = t.remove(j);
        assert(s1.to_multiset() =~= t1.to_multiset());
        lemma_multiset_map(s1, t1, f);
        assert(s.map_values(f) =~= s1.map_values(f).push(f(a)));
        assert(t.map_values(f).remove(j) =~= t1.map_values(f));
        assert(t.map_values(f)[j] == f(a));
        assert(t.map_values(f).to_multiset() =~= t1.map_values(f).to_multiset().insert(f(a)));
    }
}

/// Merges two key-sorted runs of entries into one.
fn merge(left: Vec<Entry>, right: Vec<Entry>) -> (r: Vec<Entry>)
    requires
        entries_sorted(left@),
        entries_sorted(right@),
    ensures
        entries_sorted(r@),
        r@.to_multiset() == left@.to_multiset().add(right@.to_multiset()),
{
    broadcast use vstd::multiset::group_multiset_axioms;

    let mut a = left;
    let mut b = right;
    let mut rev: Vec<Entry> = Vec::new();
    while a.len() > 0 || b.len() > 0
        invariant
            entries_sorted(a@),
            entries_sorted(b@),
            entries_descending(rev@),
            keys_below(a@, rev@),
            keys_below(b@, rev@),
            rev@.to_multiset().add(a@.to_multiset()).add(b@.to_multiset()) == left@.to_multiset().add(
                right@.to_multiset(),
            ),
        decreases a@.len() + b@.len(),
    {
        let take_a = if a.len() == 0 {
            false
        } else if b.len() == 0 {
            true
        } else {
            !key_le_exec(&a[a.len() - 1].0, &b[b.len() - 1].0)
        };
        let ghost a0 = a@;
        let ghost b0 = b@;
        let ghost r0 = rev@;
        let e = if take_a {
            a.pop().unwrap()
        } else {
            b.pop().unwrap()
        };
        proof {
            if take_a {
                assert(a0 =~= a@.push(e));
                if b0.len() > 0 {
                    lemma_key_total(e.0, b0.last().0);
                }
            } else {
                assert(b0 =~= b@.push(e));
            }
            // e comes no earlier than anything left in either run
            assert forall|y: int| 0 <= y < a@.len() implies key_le(#[trigger] a@[y].0, e.0) by {
                if take_a {
                    assert(key_le(a0[y].0, a0[a0.len() - 1].0));
                } else {
                    if y < a0.len() - 1 {
                        assert(key_le(a0[y].0, a0[a0.len() - 1].0));
                    } else {
                        lemma_key_reflexive(a0[y].0);
                    }
                    lemma_key_transitive(a0[y].0, a0[a0.len() - 1].0, e.0);
                }
            }
            assert forall|y: int| 0 <= y < b@.len() implies key_le(#[trigger] b@[y].0, e.0) by {
                if take_a {
                    if y < b0.len() - 1 {
                        assert(key_le(b0[y].0, b0[b0.len() - 1].0));
                    } else {
                        lemma_key_reflexive(b0[y].0);
                    }
                    lemma_key_transitive(b0[y].0, b0[b0.len() - 1].0, e.0);
                } else {
                    assert(key_le(b0[y].0, b0[b0.len() - 1].0));
                }
            }
        }
        rev.push(e);
        proof {
            assert(rev@ =~= r0.push(e));
            assert forall|i: int, j: int| 0 <= i < j < rev@.len() implies key_le(
                #[trigger] rev@[j].0,
                #[trigger] rev@[i].0,
            ) by {
                if j == r0.len() {
                    if take_a {
                        assert(key_le(a0[a0.len() - 1].0, r0[i].0));
                    } else {
                        assert(key_le(b0[b0.len() - 1].0, r0[i].0));
                    }
                } else {
                    assert(key_le(r0[j].0, r0[i].0));
                }
            }
            assert forall|y: int, i: int| 0 <= y < a@.len() && 0 <= i < rev@.len() implies key_le(
                #[trigger] a@[y].0,
                #[trigger] rev@[i].0,
            ) by {
                if i < r0.len() {
                    assert(a@[y] == a0[y]);
                    assert(key_le(a0[y].0, r0[i].0));
                }
            }
            assert forall|y: int, i: int| 0 <= y < b@.len() && 0 <= i < rev@.len() implies key_le(
                #[trigger] b@[y].0,
                #[trigger] rev@[i].0,
            ) by {
                if i < r0.len() {
                    assert(b@[y] == b0[y]);
                    assert(key_le(b0[y].0, r0[i].0));
                }
            }
        }
    }
    assert(a@.to_multiset() =~= Multiset::empty());
    assert(b@.to_multiset() =~= Multiset::empty());
    let mut out: Vec<Entry> = Vec::new();
    while rev.len() > 0
        invariant
            entries_sorted(out@),
            entries_descending(rev@),
            keys_below(out@, rev@),
            out@.to_multiset().add(rev@.to_multiset()) == left@.to_multiset().add(
                right@.to_multiset(),
            ),
        decreases rev@.len(),
    {
        let ghost r0 = rev@;
        let ghost o0 = out@;
        let e = rev.pop().unwrap();
        assert(r0 =~= rev@.push(e));
        out.push(e);
        proof {
            assert(out@ =~= o0.push(e));
            assert forall|i: int, j: int| 0 <= i < j < out@.len() implies key_le(
                #[trigger] out@[i].0,
                #[trigger] out@[j].0,
            ) by {
                if j == o0.len() {
                    assert(key_le(o0[i].0, r0[r0.len() - 1].0));
                } else {
                    assert(key_le(o0[i].0, o0[j].0));
                }
            }
            assert forall|i: int, j: int| 0 <= i < out@.len() && 0 <= j < rev@.len() implies key_le(
                #[trigger] out@[i].0,
                #[trigger] rev@[j].0,
            ) by {
                assert(rev@[j] == r0[j]);
                if i == o0.len() {
                    assert(key_le(r0[r0.len() - 1].0, r0[j].0));
                } else {
                    assert(key_le(o0[i].0, r0[j].0));
                }
            }
        }
    }
    assert(rev@.to_multiset() =~= Multiset::empty());
    out
}

/// Sorts entries into ascending order of key (a merge sort).
pub fn sort_entries(entries: Vec<Entry>) -> (r: Vec<Entry>)
    ensures
        entries_sorted(r@),
        r@.to_multiset() == entries@.to_multiset(),
    decreases entries@.len(),
{
    let n = entries.len();
    if n <= 1 {
        return entries;
    }
    let ghost whole = entries@;
    let mut left = entries;
    let right = left.split_off(n / 2);
    proof {
        assert(whole =~= left@ + right@);
        vstd::seq_lib::lemma_multiset_commutative(left@, right@);
    }
    let l = sort_entries(left);
    let r = sort_entries(right);
    merge(l, r)
}

/// The records that share their lower-cased paths with another keep the
/// order they had: `p` maps each place of `r` to the place in `recs` its
/// record came from.
pub open spec fn kept_order(r: Seq<FileStats>, recs: Seq<FileStats>, p: Seq<int>) -> bool {
    &&& p.len() == r.len()
    &&& forall|i: int| 0 <= i < r.len() ==> 0 <= p[i] < recs.len() && #[trigger] r[i] == recs[p[i]]
    &&& forall|i: int, j: int|
        0 <= i < j < r.len() && lower_of(r[i].path@) == lower_of(r[j].path@) ==> #[trigger] p[i]
            < #[trigger] p[j]
}

/// Sorts records into ascending order of their lower-cased paths; records
/// whose lower-cased paths are equal keep their order.
pub fn sort_by_path(recs: Vec<FileStats>) -> (r: Vec<FileStats>)
    ensures
        sorted_by_path(r@),
        r@.to_multiset() == recs@.to_multiset(),
        exists|p: Seq<int>| #[trigger] kept_order(r@, recs@, p),
{
    let ghost all = recs@;
    let n = recs.len();
    let mut rest = recs;
    let mut stack: Vec<FileStats> = Vec::new();
    while rest.len() > 0
        invariant
            rest@.len() + stack@.len() == n,
            n == all.len(),
            rest@ == all.subrange(0, rest@.len() as int),
            forall|i: int| 0 <= i < stack@.len() ==> #[trigger] stack@[i] == all[n - 1 - i],
        decreases rest@.len(),
    {
        let s = rest.pop().unwrap();
        stack.push(s);
    }
    // take the records in their order, each paired with its key and place
    let mut entries: Vec<Entry> = Vec::new();
    while stack.len() > 0
        invariant
            entries@.len() + stack@.len() == n,
            n == all.len(),
            forall|i: int| 0 <= i < stack@.len() ==> #[trigger] stack@[i] == all[n - 1 - i],
            forall|i: int|
                0 <= i < entries@.len() ==> (#[trigger] entries@[i]).0.0@ == lower_of(
                    entries@[i].1.path@,
                ) && entries@[i].0.1 == i && entries@[i].1 == all[i],
        decreases stack@.len(),
    {
        let s = stack.pop().unwrap();
        let key = lowercase_chars(s.path.as_str());
        let place = entries.len();
        entries.push(((key, place), s));
    }
    let ghost ev = entries@;
    assert(ev.map_values(|e: Entry| e.1) =~= all);
    let sorted = sort_entries(entries);
    proof {
        lemma_multiset_map(sorted@, ev, |e: Entry| e.1);
    }
    let ghost sv = sorted@;
    let mut sorted = sorted;
    let mut out: Vec<FileStats> = Vec::new();
    let mut rev: Vec<Entry> = Vec::new();
    while sorted.len() > 0
        invariant
            rev@.len() + sorted@.len() == sv.len(),
            sorted@ == sv.subrange(0, sorted@.len() as int),
            forall|i: int| 0 <= i < rev@.len() ==> #[trigger] rev@[i] == sv[sv.len() - 1 - i],
        decreases sorted@.len(),
    {
        let e = sorted.pop().unwrap();
        rev.push(e);
    }
    while rev.len() > 0
        invariant
            out@.len() + rev@.len() == sv.len(),
            forall|i: int| 0 <= i < rev@.len() ==> #[trigger] rev@[i] == sv[sv.len() - 1 - i],
            forall|i: int| 0 <= i < out@.len() ==> #[trigger] out@[i] == sv[i].1,
        decreases rev@.len(),
    {
        let e = rev.pop().unwrap();
        out.push(e.1);
    }
    proof {
        assert(out@ =~= sv.map_values(|e: Entry| e.1));
        assert(sv.len() == sv.to_multiset().len() && ev.len() == ev.to_multiset().len());
        assert forall|i: int| 0 <= i < sv.len() implies {
            &&& 0 <= (#[trigger] sv[i]).0.1 < ev.len()
            &&& sv[i] == ev[sv[i].0.1 as int]
        } by {
            assert(sv.to_multiset().count(sv[i]) > 0);
            assert(ev.contains(sv[i]));
            let j = choose|j: int| 0 <= j < ev.len() && ev[j] == sv[i];
            assert(ev[j].0.1 == j);
        }
        assert(ev.no_duplicates()) by {
            assert forall|i: int, j: int| 0 <= i < ev.len() && 0 <= j < ev.len() && i != j implies ev[i]
                != ev[j] by {
                assert(ev[i].0.1 == i && ev[j].0.1 == j);
            }
        }
        ev.lemma_multiset_has_no_duplicates();
        sv.lemma_multiset_has_no_duplicates_conv();
        let p = sv.map_values(|e: Entry| e.0.1 as int);
        assert forall|i: int, j: int| 0 <= i < j < out@.len() implies lex_le(
            lower_of(#[trigger] out@[i].path@),
            lower_of(#[trigger] out@[j].path@),
        ) by {
            assert(key_le(sv[i].0, sv[j].0));
        }
        assert forall|i: int| 0 <= i < out@.len() implies 0 <= p[i] < all.len() && #[trigger] out@[i]
            == all[p[i]] by {
            assert(sv[i] == ev[sv[i].0.1 as int]);
        }
        assert forall|i: int, j: int|
            0 <= i < j < out@.len() && lower_of(out@[i].path@) == lower_of(out@[j].path@) implies #[trigger] p[i]
            < #[trigger] p[j] by {
            assert(sv[i] == ev[sv[i].0.1 as int]);
            assert(sv[j] == ev[sv[j].0.1 as int]);
            assert(key_le(sv[i].0, sv[j].0));
            assert(sv[i] != sv[j]);
        }
        assert(kept_order(out@, all, p));
    }
    out
}

} // verus!
