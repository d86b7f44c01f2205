//! Splitting delimited byte text into tokens.
//!
//! The frame stream is comma-separated and each record pipe-separated; the
//! life bar is pipe-separated with comma-separated pairs inside.  `spec_split`
//! fixes what splitting means (as `str::split` does it: every delimiter cuts,
//! empty tokens included), and `split_bytes` is the executable version.

use vstd::prelude::*;

verus! {

/// The tokens of `s` between occurrences of `d`: always one more token than
/// there are delimiters, empty tokens included.
pub open spec fn spec_split(s: Seq<u8>, d: u8) -> Seq<Seq<u8>>
    decreases s.len(),
{
    if s.len() == 0 {
        seq![Seq::<u8>::empty()]
    } else if s[0] == d {
        seq![Seq::<u8>::empty()] + spec_split(s.drop_first(), d)
    } else {
        let rest = spec_split(s.drop_first(), d);
        seq![seq![s[0]] + rest[0]] + rest.drop_first()
    }
}

/// Splitting yields at least one token.
pub proof fn lemma_split_len(s: Seq<u8>, d: u8)
    ensures
        spec_split(s, d).len() >= 1,
    decreases s.len(),
{
    if s.len() > 0 {
        lemma_split_len(s.drop_first(), d);
    }
}

/// Text without the delimiter is one single token.
pub proof fn lemma_split_no_delim(s: Seq<u8>, d: u8)
    requires
        !s.contains(d),
    ensures
        spec_split(s, d) == seq![s],
    decreases s.len(),
{
    if s.len() == 0 {
        assert(spec_split(s, d) =~~= seq![s]);
    } else {
        assert(s[0] != d);
        assert forall|i: int| 0 <= i < s.drop_first().len() implies s.drop_first()[i] != d by {
            assert(s.drop_first()[i] == s[i + 1]);
        }
        assert(!s.drop_first().contains(d));
        lemma_split_no_delim(s.drop_first(), d);
        let rest = spec_split(s.drop_first(), d);
        assert(rest == seq![s.drop_first()]);
        assert(seq![s[0]] + rest[0] =~= s);
        assert(rest.drop_first() =~= Seq::<Seq<u8>>::empty());
        assert(spec_split(s, d) =~~= seq![s]);
    }
}

/// A delimiter-free token followed by a delimiter splits off whole.
pub proof fn lemma_split_append(t: Seq<u8>, d: u8, rest: Seq<u8>)
    requires
        !t.contains(d),
    ensures
        spec_split(t + seq![d] + rest, d) == seq![t] + spec_split(rest, d),
    decreases t.len(),
{
    let s = t + seq![d] + rest;
    if t.len() == 0 {
        assert(s[0] == d);
        assert(s.drop_first() =~= rest);
        assert(spec_split(s, d) =~~= seq![t] + spec_split(rest, d));
    } else {
        assert(s[0] == t[0]);
        assert(s[0] != d) by {
            if t[0] == d {
                assert(t.contains(d));
            }
        }
        assert(s.drop_first() =~= t.drop_first() + seq![d] + rest);
        assert forall|i: int| 0 <= i < t.drop_first().len() implies t.drop_first()[i] != d by {
            assert(t.drop_first()[i] == t[i + 1]);
        }
        assert(!t.drop_first().contains(d));
        lemma_split_append(t.drop_first(), d, rest);
        let inner = spec_split(s.drop_first(), d);
        assert(inner == seq![t.drop_first()] + spec_split(rest, d));
        lemma_split_len(rest, d);
        assert(inner[0] == t.drop_first());
        assert(seq![s[0]] + inner[0] =~= t);
        assert(inner.drop_first() =~~= spec_split(rest, d));
        assert(spec_split(s, d) =~~= seq![t] + spec_split(rest, d));
    }
}

/// Concatenation of byte text is associative.
pub proof fn lemma_add_assoc(a: Seq<u8>, b: Seq<u8>, c: Seq<u8>)
    ensures
        (a + b) + c == a + (b + c),
{
    assert((a + b) + c =~= a + (b + c));
}

/// Concatenation holds a byte only if one of the parts does.
pub proof fn lemma_concat_not_contains(a: Seq<u8>, b: Seq<u8>, d: u8)
    requires
        !a.contains(d),
        !b.contains(d),
    ensures
        !(a + b).contains(d),
{
    if (a + b).contains(d) {
        let i = choose|i: int| 0 <= i < (a + b).len() && (a + b)[i] == d;
        if i < a.len() {
            assert(a[i] == d);
        } else {
            assert(b[i - a.len()] == d);
        }
    }
}

/// The first token continued by what comes after it.
pub open spec fn cons_first(pre: Seq<u8>, parts: Seq<Seq<u8>>) -> Seq<Seq<u8>>
    recommends
        parts.len() >= 1,
{
    seq![pre + parts[0]] + parts.drop_first()
}

/// Cut `s` at every occurrence of `d`.
pub fn split_bytes(s: &Vec<u8>, d: u8) -> (r: Vec<Vec<u8>>)
    ensures
        r.deep_view() == spec_split(s@, d),
        r.len() >= 1,
{
    let mut out: Vec<Vec<u8>> = Vec::new();
    let mut cur: Vec<u8> = Vec::new();
    let mut i: usize = 0;
    proof {
        lemma_split_len(s@, d);
        assert(s@.skip(0) =~= s@);
        let parts = spec_split(s@, d);
        assert(Seq::<u8>::empty() + parts[0] =~= parts[0]);
        assert(cons_first(Seq::<u8>::empty(), parts) =~~= parts);
        assert(out.deep_view() =~~= Seq::<Seq<u8>>::empty());
    }
    while i < s.len()
        invariant
            i <= s@.len(),
            spec_split(s@, d) =~~= out.deep_view() + cons_first(
                cur@,
                spec_split(s@.skip(i as int), d),
            ),
        decreases s@.len() - i,
    {
        let ghost pre = s@.skip(i as int);
        proof {
            lemma_split_len(pre, d);
            lemma_split_len(s@.skip(i + 1), d);
            assert(pre.drop_first() =~= s@.skip(i + 1));
        }
        let b = s[i];
        assert(pre[0] == b);
        if b == d {
            let ghost old_out = out.deep_view();
            out.push(cur);
            proof {
                assert(out.deep_view() =~~= old_out + seq![cur@]);
                assert(cons_first(cur@, spec_split(pre, d))[0] == cur@ + Seq::<u8>::empty());
                assert(cur@ + Seq::<u8>::empty() =~= cur@);
            }
            cur = Vec::new();
            proof {
                assert(spec_split(s@, d) =~~= out.deep_view() + cons_first(
                    cur@,
                    spec_split(s@.skip(i + 1), d),
                ));
            }
        } else {
            let ghost old_cur = cur@;
            cur.push(b);
            proof {
                let rest = spec_split(s@.skip(i + 1), d);
                assert(spec_split(pre, d) == seq![seq![b] + rest[0]] + rest.drop_first());
                assert(old_cur + (seq![b] + rest[0]) =~= cur@ + rest[0]);
                assert(cons_first(old_cur, spec_split(pre, d)) =~~= cons_first(cur@, rest));
            }
        }
        i = i + 1;
    }
    proof {
        assert(s@.skip(s@.len() as int).len() == 0);
        assert(spec_split(s@.skip(i as int), d) =~~= seq![Seq::<u8>::empty()]);
        assert(cons_first(cur@, seq![Seq::<u8>::empty()])[0] == cur@ + Seq::<u8>::empty());
        assert(cur@ + Seq::<u8>::empty() =~= cur@);
        assert(cons_first(cur@, seq![Seq::<u8>::empty()]) =~~= seq![cur@]);
    }
    let ghost old_out = out.deep_view();
    out.push(cur);
    proof {
        assert(out.deep_view() =~~= old_out + seq![cur@]);
        assert(out.deep_view() =~~= spec_split(s@, d));
    }
    out
}

/// Whether `v` holds the byte `d`.
pub fn contains_byte(v: &Vec<u8>, d: u8) -> (r: bool)
    ensures
        r == v@.contains(d),
{
    let mut i: usize = 0;
    while i < v.len()
        invariant
            i <= v@.len(),
            forall|j: int| 0 <= j < i ==> v@[j] != d,
        decreases v@.len() - i,
    {
        if v[i] == d {
            return true;
        }
        i = i + 1;
    }
    false
}

} // verus!
