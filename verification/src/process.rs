//! The launcher's merge policy: how the manifest's argv and env combine
//! with the caller's live arguments and inherited environment before the
//! process image is replaced.

use vstd::prelude::*;

verus! {

/// The mapping that an ordered list of environment entries denotes: a later
/// entry for the same key overrides an earlier one.
pub open spec fn env_map(l: Seq<(Seq<char>, Seq<char>)>) -> Map<Seq<char>, Seq<char>>
    decreases l.len(),
{
    if l.len() == 0 {
        Map::empty()
    } else {
        env_map(l.drop_last()).insert(l.last().0, l.last().1)
    }
}

/// The set of keys an ordered list of environment entries names.
pub open spec fn key_set(l: Seq<(Seq<char>, Seq<char>)>) -> Set<Seq<char>> {
    Set::new(|k: Seq<char>| exists|i: int| 0 <= i < l.len() && (#[trigger] l[i]).0 == k)
}

/// The entries of `l` whose keys are not in `ks`, in their original order.
pub open spec fn drop_keys(l: Seq<(Seq<char>, Seq<char>)>, ks: Set<Seq<char>>) -> Seq<
    (Seq<char>, Seq<char>),
>
    decreases l.len(),
{
    if l.len() == 0 {
        Seq::empty()
    } else if ks.contains(l[0].0) {
        drop_keys(l.drop_first(), ks)
    } else {
        seq![l[0]] + drop_keys(l.drop_first(), ks)
    }
}

/// An environment list denotes the same mapping as its last entry inserted
/// over the rest — and concatenation denotes a right-preferring union.
pub proof fn lemma_env_map_concat(a: Seq<(Seq<char>, Seq<char>)>, b: Seq<(Seq<char>, Seq<char>)>)
    ensures
        env_map(a + b) == env_map(a).union_prefer_right(env_map(b)),
    decreases b.len(),
{
    if b.len() == 0 {
        assert(a + b =~= a);
        assert(env_map(a).union_prefer_right(Map::<Seq<char>, Seq<char>>::empty()) =~= env_map(a));
    } else {
        assert((a + b).drop_last() =~= a + b.drop_last());
        assert((a + b).last() == b.last());
        lemma_env_map_concat(a, b.drop_last());
        assert(env_map(a + b) == env_map(a).union_prefer_right(env_map(b.drop_last())).insert(
            b.last().0,
            b.last().1,
        ));
        assert(env_map(a).union_prefer_right(env_map(b.drop_last())).insert(b.last().0, b.last().1)
            =~= env_map(a).union_prefer_right(env_map(b.drop_last()).insert(
            b.last().0,
            b.last().1,
        )));
    }
}

/// The mapping a list denotes has exactly the keys the list names.
pub proof fn lemma_env_map_dom(l: Seq<(Seq<char>, Seq<char>)>)
    ensures
        env_map(l).dom() == key_set(l),
    decreases l.len(),
{
    if l.len() == 0 {
        assert(env_map(l).dom() =~= key_set(l));
    } else {
        lemma_env_map_dom(l.drop_last());
        assert forall|k: Seq<char>| key_set(l).contains(k) implies env_map(l).dom().contains(
            k,
        ) by {
            let i = choose|i: int| 0 <= i < l.len() && (#[trigger] l[i]).0 == k;
            if i < l.len() - 1 {
                assert(l.drop_last()[i] == l[i]);
                assert(key_set(l.drop_last()).contains(k));
            }
        }
        assert forall|k: Seq<char>| env_map(l).dom().contains(k) implies key_set(l).contains(
            k,
        ) by {
            if k == l.last().0 {
                assert((#[trigger] l[l.len() - 1]).0 == k);
            } else {
                assert(key_set(l.drop_last()).contains(k));
                let i = choose|i: int|
                    0 <= i < l.drop_last().len() && (#[trigger] l.drop_last()[i]).0 == k;
                assert(l[i] == l.drop_last()[i]);
            }
        }
        assert(env_map(l).dom() =~= key_set(l));
    }
}

/// Dropping the entries whose keys a set names removes exactly those keys
/// from the denoted mapping.
pub proof fn lemma_env_map_drop_keys(l: Seq<(Seq<char>, Seq<char>)>, ks: Set<Seq<char>>)
    ensures
        env_map(drop_keys(l, ks)) == env_map(l).remove_keys(ks),
    decreases l.len(),
{
    if l.len() == 0 {
        assert(env_map(drop_keys(l, ks)) =~= env_map(l).remove_keys(ks));
    } else {
        lemma_env_map_drop_keys(l.drop_first(), ks);
        assert(l =~= seq![l[0]] + l.drop_first());
        lemma_env_map_concat(seq![l[0]], l.drop_first());
        assert(env_map(l) == env_map(seq![l[0]]).union_prefer_right(env_map(l.drop_first())));
        assert(env_map(seq![l[0]]) =~= Map::<Seq<char>, Seq<char>>::empty().insert(
            l[0].0,
            l[0].1,
        )) by {
            assert(seq![l[0]].drop_last() =~= Seq::<(Seq<char>, Seq<char>)>::empty());
            assert(seq![l[0]].last() == l[0]);
            assert(env_map(Seq::<(Seq<char>, Seq<char>)>::empty())
                == Map::<Seq<char>, Seq<char>>::empty());
        }
        if ks.contains(l[0].0) {
            assert(env_map(drop_keys(l, ks)) == env_map(drop_keys(l.drop_first(), ks)));
            assert(env_map(l).remove_keys(ks) =~= env_map(l.drop_first()).remove_keys(ks));
        } else {
            lemma_env_map_concat(seq![l[0]], drop_keys(l.drop_first(), ks));
            assert(env_map(drop_keys(l, ks)) == env_map(seq![l[0]]).union_prefer_right(
                env_map(drop_keys(l.drop_first(), ks)),
            ));
            assert(env_map(seq![l[0]]).union_prefer_right(
                env_map(l.drop_first()).remove_keys(ks),
            ) =~= env_map(seq![l[0]]).union_prefer_right(env_map(l.drop_first())).remove_keys(ks));
        }
    }
}

/// True when a string equal to `key` is a key of one of `entries`.
fn contains_key(entries: &Vec<(String, String)>, key: &String) -> (r: bool)
    ensures
        r == key_set(entries.deep_view()).contains(key@),
{
    let n = entries.len();
    let mut i: usize = 0;
    while i < n
        invariant
            n == entries@.len(),
            i <= n,
            forall|t: int| 0 <= t < i ==> (#[trigger] entries.deep_view()[t]).0 != key@,
        decreases n - i,
    {
        if entries[i].0 == *key {
            proof {
                assert((entries.deep_view()[i as int]).0 == key@);
            }
            return true;
        }
        i += 1;
    }
    proof {
        if key_set(entries.deep_view()).contains(key@) {
            let t = choose|t: int|
                0 <= t < entries.deep_view().len() && (#[trigger] entries.deep_view()[t]).0
                    == key@;
            assert(false);
        }
    }
    false
}

/// Law (merge policy, argv): the manifest's argv, after substitution, is
/// the prefix of the final argv, and the caller's own arguments follow it
/// in their original order.
pub fn merge_argv(manifest_argv: Vec<String>, caller_args: Vec<String>) -> (r: Vec<String>)
    ensures
        r.deep_view() == manifest_argv.deep_view() + caller_args.deep_view(),
{
    let ghost m0 = manifest_argv.deep_view();
    let ghost c0 = caller_args.deep_view();
    let mut r = manifest_argv;
    let mut rest = caller_args;
    r.append(&mut rest);
    proof {
        assert(r.deep_view() =~= m0 + c0);
    }
    r
}

/// Law (merge policy, env): the inherited environment is the base and the
/// manifest's entries are laid over it — every key the manifest names has
/// the manifest's value, every other inherited variable keeps its value,
/// and no variable is removed. The result holds the surviving inherited
/// entries in order, then the manifest entries in order.
#[verifier::loop_isolation(false)]
pub fn merge_env(base: Vec<(String, String)>, overrides: Vec<(String, String)>) -> (r: Vec<
    (String, String),
>)
    ensures
        r.deep_view() == drop_keys(base.deep_view(), key_set(overrides.deep_view()))
            + overrides.deep_view(),
        env_map(r.deep_view()) == env_map(base.deep_view()).union_prefer_right(
            env_map(overrides.deep_view()),
        ),
{
    let ghost b0 = base.deep_view();
    let ghost o0 = overrides.deep_view();
    let ghost ks = key_set(o0);
    let mut out: Vec<(String, String)> = Vec::new();
    let mut rest = base;
    while rest.len() > 0
        invariant
            drop_keys(b0, ks) == out.deep_view() + drop_keys(rest.deep_view(), ks),
        decreases rest.len(),
    {
        let ghost rem = rest.deep_view();
        let entry = rest.remove(0);
        proof {
            assert(rest.deep_view() =~= rem.drop_first());
            assert(rem[0] == (entry.0@, entry.1@));
        }
        if !contains_key(&overrides, &entry.0) {
            let ghost out_before = out.deep_view();
            out.push(entry);
            proof {
                assert(out.deep_view() =~= out_before + seq![rem[0]]);
                assert(out_before + (seq![rem[0]] + drop_keys(rem.drop_first(), ks)) =~= (
                out_before + seq![rem[0]]) + drop_keys(rem.drop_first(), ks));
            }
        } else {
            proof {
                assert(ks.contains(rem[0].0));
                assert(drop_keys(rem, ks) == drop_keys(rem.drop_first(), ks));
            }
        }
    }
    proof {
        assert(rest.deep_view() =~= Seq::<(Seq<char>, Seq<char>)>::empty());
        assert(out.deep_view() + Seq::<(Seq<char>, Seq<char>)>::empty() =~= out.deep_view());
        assert(out.deep_view() == drop_keys(b0, ks));
    }
    let ghost filtered = out.deep_view();
    let mut ov = overrides;
    while ov.len() > 0
        invariant
            filtered + o0 == out.deep_view() + ov.deep_view(),
        decreases ov.len(),
    {
        let ghost rem = ov.deep_view();
        let ghost out_before = out.deep_view();
        let entry = ov.remove(0);
        out.push(entry);
        proof {
            assert(ov.deep_view() =~= rem.drop_first());
            assert(out.deep_view() =~= out_before + seq![rem[0]]);
            assert((out_before + seq![rem[0]]) + rem.drop_first() =~= out_before + rem);
        }
    }
    proof {
        assert(ov.deep_view() =~= Seq::<(Seq<char>, Seq<char>)>::empty());
        assert(out.deep_view() + Seq::<(Seq<char>, Seq<char>)>::empty() =~= out.deep_view());
        assert(out.deep_view() == drop_keys(b0, ks) + o0);
        lemma_env_map_concat(drop_keys(b0, ks), o0);
        lemma_env_map_drop_keys(b0, ks);
        lemma_env_map_dom(o0);
        assert(env_map(b0).remove_keys(ks).union_prefer_right(env_map(o0)) =~= env_map(
            b0,
        ).union_prefer_right(env_map(o0)));
    }
    out
}

} // verus!
