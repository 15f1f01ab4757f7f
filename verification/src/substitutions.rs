//! The substitution engine: rewriting registered literal placeholder tokens
//! inside manifest strings into runtime-resolved values.
//!
//! A rule replaces every non-overlapping occurrence of its token, scanning
//! left to right. Substitution is a best-effort convenience: input that is
//! not valid UTF-8 text passes through untouched.

use vstd::prelude::*;
use vstd::slice::slice_to_vec;
use vstd::utf8::valid_utf8;

pub mod fs;

verus! {

/// One substitution rule: every occurrence of the literal `token` in a
/// string is replaced by `value`.
pub struct Substitution {
    pub token: Vec<u8>,
    pub value: Vec<u8>,
}

/// Literal replacement: every non-overlapping occurrence of `pat` in
/// `text`, found scanning left to right, becomes `rep`. An empty pattern
/// matches nothing and leaves the text unchanged.
pub open spec fn replace_all(text: Seq<u8>, pat: Seq<u8>, rep: Seq<u8>) -> Seq<u8>
    decreases text.len(),
{
    if pat.len() == 0 || text.len() < pat.len() {
        text
    } else if text.subrange(0, pat.len() as int) == pat {
        rep + replace_all(text.skip(pat.len() as int), pat, rep)
    } else {
        seq![text[0]] + replace_all(text.skip(1), pat, rep)
    }
}

/// The rules of `subs`, applied in order to the cumulative result.
pub open spec fn apply_rules(text: Seq<u8>, subs: Seq<Substitution>) -> Seq<u8>
    decreases subs.len(),
{
    if subs.len() == 0 {
        text
    } else {
        apply_rules(replace_all(text, subs[0].token@, subs[0].value@), subs.drop_first())
    }
}

/// What applying the substitutions to a byte sequence yields: the rules in
/// order when the input is valid UTF-8 text, the input untouched otherwise.
pub open spec fn apply_spec(input: Seq<u8>, subs: Seq<Substitution>) -> Seq<u8> {
    if valid_utf8(input) {
        apply_rules(input, subs)
    } else {
        input
    }
}

/// True when `pat` occurs in `text` starting at position `i`.
pub open spec fn occurs_at(text: Seq<u8>, pat: Seq<u8>, i: int) -> bool {
    0 <= i && i + pat.len() <= text.len() && text.subrange(i, i + pat.len()) == pat
}

/// True when `pat` occurs somewhere in `text`.
pub open spec fn occurs(text: Seq<u8>, pat: Seq<u8>) -> bool {
    exists|i: int| occurs_at(text, pat, i)
}

/// Law: a rule whose token does not occur in the text leaves it unchanged,
/// byte for byte.
pub proof fn lemma_replace_all_no_match(text: Seq<u8>, pat: Seq<u8>, rep: Seq<u8>)
    requires
        !occurs(text, pat),
    ensures
        replace_all(text, pat, rep) == text,
    decreases text.len(),
{
    if pat.len() == 0 || text.len() < pat.len() {
    } else {
        assert(text.subrange(0, pat.len() as int) != pat) by {
            if text.subrange(0, pat.len() as int) == pat {
                assert(occurs_at(text, pat, 0));
            }
        }
        assert(!occurs(text.skip(1), pat)) by {
            if occurs(text.skip(1), pat) {
                let i = choose|i: int| occurs_at(text.skip(1), pat, i);
                assert(text.subrange(i + 1, i + 1 + pat.len()) =~= text.skip(1).subrange(
                    i,
                    i + pat.len(),
                ));
                assert(occurs_at(text, pat, i + 1));
            }
        }
        lemma_replace_all_no_match(text.skip(1), pat, rep);
        assert(seq![text[0]] + text.skip(1) =~= text);
    }
}

/// Replaces every non-overlapping occurrence of `pat` in `text` by `rep`,
/// scanning left to right.
pub fn replace_all_bytes(text: &[u8], pat: &[u8], rep: &[u8]) -> (r: Vec<u8>)
    ensures
        r@ == replace_all(text@, pat@, rep@),
{
    let n = text.len();
    let pn = pat.len();
    if pn == 0 {
        proof {
            assert(replace_all(text@, pat@, rep@) == text@);
        }
        return slice_to_vec(text);
    }
    let mut out: Vec<u8> = Vec::new();
    let mut i: usize = 0;
    proof {
        assert(text@.skip(0) =~= text@);
        assert(Seq::<u8>::empty() + replace_all(text@, pat@, rep@) =~= replace_all(
            text@,
            pat@,
            rep@,
        ));
    }
    while i < n
        invariant
            n == text@.len(),
            pn == pat@.len(),
            pn > 0,
            i <= n,
            replace_all(text@, pat@, rep@) == out@ + replace_all(
                text@.skip(i as int),
                pat@,
                rep@,
            ),
        decreases n - i,
    {
        let ghost rem = text@.skip(i as int);
        if pn <= n - i && crate::text::bytes_eq(
            vstd::slice::slice_subrange(text, i, i + pn),
            pat,
        ) {
            let ghost out_before = out@;
            out.extend_from_slice(rep);
            proof {
                assert(rem.subrange(0, pn as int) =~= text@.subrange(i as int, i as int + pn));
                assert(rem.subrange(0, pn as int) == pat@);
                assert(rem.skip(pn as int) =~= text@.skip(i as int + pn));
                assert(replace_all(rem, pat@, rep@) == rep@ + replace_all(
                    text@.skip(i as int + pn),
                    pat@,
                    rep@,
                ));
                assert(out_before + (rep@ + replace_all(text@.skip(i as int + pn), pat@, rep@))
                    =~= out@ + replace_all(text@.skip(i as int + pn), pat@, rep@));
            }
            i += pn;
        } else {
            let b = *vstd::slice::slice_index_get(text, i);
            let ghost out_before = out@;
            out.push(b);
            proof {
                assert(rem.len() >= 1 && rem[0] == b);
                if rem.len() < pn {
                    assert(replace_all(rem, pat@, rep@) == rem);
                    assert(rem =~= seq![b] + text@.skip(i as int + 1));
                    assert(replace_all(text@.skip(i as int + 1), pat@, rep@) == text@.skip(
                        i as int + 1,
                    ));
                } else {
                    assert(rem.subrange(0, pn as int) =~= text@.subrange(i as int, i as int + pn));
                    assert(rem.subrange(0, pn as int) != pat@);
                    assert(rem.skip(1) =~= text@.skip(i as int + 1));
                    assert(replace_all(rem, pat@, rep@) == seq![b] + replace_all(
                        text@.skip(i as int + 1),
                        pat@,
                        rep@,
                    ));
                }
                assert(out_before + (seq![b] + replace_all(text@.skip(i as int + 1), pat@, rep@))
                    =~= out@ + replace_all(text@.skip(i as int + 1), pat@, rep@));
            }
            i += 1;
        }
    }
    proof {
        assert(text@.skip(n as int) =~= Seq::<u8>::empty());
        assert(replace_all(Seq::<u8>::empty(), pat@, rep@) == Seq::<u8>::empty());
        assert(out@ + Seq::<u8>::empty() =~= out@);
    }
    out
}

/// Applies each substitution in list order to the cumulative result, when
/// the input is valid UTF-8 text. Input that is not valid UTF-8 is returned
/// unchanged, byte for byte: substitution never corrupts an opaque payload.
pub fn apply(input: &[u8], substitutions: &[Substitution]) -> (r: Vec<u8>)
    ensures
        r@ == apply_spec(input@, substitutions@),
        !valid_utf8(input@) ==> r@ == input@,
{
    if crate::text::bytes_to_string(input).is_none() {
        return slice_to_vec(input);
    }
    let sn = substitutions.len();
    let mut cur = slice_to_vec(input);
    let mut k: usize = 0;
    proof {
        assert(substitutions@.skip(0) =~= substitutions@);
    }
    while k < sn
        invariant
            sn == substitutions@.len(),
            k <= sn,
            apply_rules(input@, substitutions@) == apply_rules(
                cur@,
                substitutions@.skip(k as int),
            ),
        decreases sn - k,
    {
        let ghost rem = substitutions@.skip(k as int);
        let s = vstd::slice::slice_index_get(substitutions, k);
        let next = replace_all_bytes(cur.as_slice(), s.token.as_slice(), s.value.as_slice());
        proof {
            assert(rem[0] == substitutions@[k as int]);
            assert(rem.drop_first() =~= substitutions@.skip(k as int + 1));
            assert(apply_rules(cur@, rem) == apply_rules(
                replace_all(cur@, rem[0].token@, rem[0].value@),
                substitutions@.skip(k as int + 1),
            ));
        }
        cur = next;
        k += 1;
    }
    proof {
        assert(substitutions@.skip(sn as int) =~= Seq::<Substitution>::empty());
    }
    cur
}

} // verus!
