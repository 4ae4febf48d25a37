//! What each stage does to a whole sequence, as mathematics.
use vstd::arithmetic::div_mod::{
    lemma_fundamental_div_mod, lemma_fundamental_div_mod_converse,
};
use vstd::prelude::*;

verus! {

/// The first `n` values of `s`, or all of it if it is shorter.
pub open spec fn first_n<T>(s: Seq<T>, n: nat) -> Seq<T> {
    if n <= s.len() {
        s.take(n as int)
    } else {
        s
    }
}

/// `s` without its first `n` values; empty if it is shorter.
pub open spec fn after_n<T>(s: Seq<T>, n: nat) -> Seq<T> {
    if n <= s.len() {
        s.skip(n as int)
    } else {
        Seq::empty()
    }
}

/// The length of the longest prefix of `s` whose values all satisfy `p`.
pub open spec fn prefix_len<T>(s: Seq<T>, p: spec_fn(T) -> bool) -> nat
    decreases s.len(),
{
    if s.len() == 0 || !p(s.first()) {
        0
    } else {
        1 + prefix_len(s.drop_first(), p)
    }
}

/// The longest prefix of `s` whose values all satisfy `p`.
pub open spec fn leading<T>(s: Seq<T>, p: spec_fn(T) -> bool) -> Seq<T> {
    s.take(prefix_len(s, p) as int)
}

/// `s` from its first value that fails `p` on.
pub open spec fn trailing<T>(s: Seq<T>, p: spec_fn(T) -> bool) -> Seq<T> {
    s.skip(prefix_len(s, p) as int)
}

/// The full chunks of `n` values each that `s` splits into, in order.
pub open spec fn whole_chunks<T>(s: Seq<T>, n: nat) -> Seq<Seq<T>> {
    if n == 0 {
        Seq::empty()
    } else {
        Seq::new(s.len() / n, |i: int| s.subrange(i * n, i * n + n))
    }
}

/// What is left of `s` behind its last full chunk of `n`.
pub open spec fn leftover<T>(s: Seq<T>, n: nat) -> Seq<T> {
    if n == 0 {
        s
    } else {
        s.skip(s.len() - s.len() % n)
    }
}

/// `s` in chunks of `n`; a shorter last chunk is kept only if `keep_rest`.
pub open spec fn chunked<T>(s: Seq<T>, n: nat, keep_rest: bool) -> Seq<Seq<T>> {
    if keep_rest && leftover(s, n).len() > 0 {
        whole_chunks(s, n).push(leftover(s, n))
    } else {
        whole_chunks(s, n)
    }
}

/// Every value of `s` replaced by what `g` expands it to, all joined in order.
pub open spec fn expanded<T, U>(s: Seq<T>, g: spec_fn(T) -> Seq<U>) -> Seq<U> {
    s.map_values(g).flatten()
}

/// `prefix_len` stops at the first value that fails `p`, and nowhere before.
pub proof fn lemma_prefix_len<T>(s: Seq<T>, p: spec_fn(T) -> bool)
    ensures
        prefix_len(s, p) <= s.len(),
        forall|i: int| 0 <= i < prefix_len(s, p) ==> p(#[trigger] s[i]),
        prefix_len(s, p) < s.len() ==> !p(s[prefix_len(s, p) as int]),
    decreases s.len(),
{
    if s.len() != 0 && p(s.first()) {
        let rest = s.drop_first();
        lemma_prefix_len(rest, p);
        assert forall|i: int| 0 <= i < prefix_len(s, p) implies p(#[trigger] s[i]) by {
            if i > 0 {
                assert(s[i] == rest[i - 1]);
            }
        }
        if prefix_len(s, p) < s.len() {
            assert(s[prefix_len(s, p) as int] == rest[prefix_len(rest, p) as int]);
        }
    }
}

/// Appending to a sequence extends its leading run only if the run reached its end.
pub proof fn lemma_prefix_len_add<T>(s: Seq<T>, more: Seq<T>, p: spec_fn(T) -> bool)
    ensures
        prefix_len(s + more, p) == if prefix_len(s, p) == s.len() {
            s.len() + prefix_len(more, p)
        } else {
            prefix_len(s, p)
        },
    decreases s.len(),
{
    if s.len() == 0 {
        assert(s + more =~= more);
    } else {
        assert((s + more).first() == s.first());
        assert((s + more).drop_first() =~= s.drop_first() + more);
        if p(s.first()) {
            lemma_prefix_len_add(s.drop_first(), more, p);
        }
    }
}

/// The leading run of a one-value sequence.
pub proof fn lemma_prefix_len_one<T>(v: T, p: spec_fn(T) -> bool)
    ensures
        prefix_len(seq![v], p) == if p(v) {
            1nat
        } else {
            0nat
        },
{
    let s = seq![v];
    assert(s.first() == v);
    if p(v) {
        assert(s.drop_first() =~= Seq::<T>::empty());
        assert(prefix_len(s.drop_first(), p) == 0);
    }
}

/// How the chunks and the leftover change when one value is appended.
pub proof fn lemma_chunks_push<T>(s: Seq<T>, v: T, n: nat)
    ensures
        n == 0 || leftover(s, n).len() + 1 < n ==> whole_chunks(s.push(v), n) == whole_chunks(s, n)
            && leftover(s.push(v), n) == leftover(s, n).push(v),
        n > 0 && leftover(s, n).len() + 1 == n ==> whole_chunks(s.push(v), n) == whole_chunks(
            s,
            n,
        ).push(leftover(s, n).push(v)) && leftover(s.push(v), n) == Seq::<T>::empty(),
        n > 0 ==> leftover(s, n).len() < n,
{
    let t = s.push(v);
    if n == 0 {
        assert(leftover(t, n) =~= leftover(s, n).push(v));
    } else {
        let len = s.len() as int;
        let d = n as int;
        let q = len / d;
        let r = len % d;
        lemma_fundamental_div_mod(len, d);
        assert(len == d * q + r);
        assert(0 <= r < d);
        assert(0 <= q) by (nonlinear_arith)
            requires
                len == d * q + r,
                0 <= len,
                0 <= r < d,
        ;
        if r + 1 < d {
            assert(len + 1 == q * d + (r + 1)) by (nonlinear_arith)
                requires
                    len == d * q + r,
            ;
            lemma_fundamental_div_mod_converse(len + 1, d, q, r + 1);
            assert forall|i: int| 0 <= i < q implies #[trigger] whole_chunks(t, n)[i]
                =~= whole_chunks(s, n)[i] by {
                assert(i * d + d <= len) by (nonlinear_arith)
                    requires
                        0 <= i < q,
                        len == d * q + r,
                        0 <= r,
                        0 < d,
                ;
                assert(0 <= i * d) by (nonlinear_arith)
                    requires
                        0 <= i,
                        0 < d,
                ;
            }
            assert(whole_chunks(t, n) =~= whole_chunks(s, n));
            assert(leftover(t, n) =~= leftover(s, n).push(v));
        } else {
            assert(q * d + d == len + 1 && len + 1 == (q + 1) * d + 0) by (nonlinear_arith)
                requires
                    len == d * q + r,
                    r + 1 == d,
            ;
            lemma_fundamental_div_mod_converse(len + 1, d, q + 1, 0);
            assert forall|i: int| 0 <= i < q + 1 implies #[trigger] whole_chunks(t, n)[i]
                =~= whole_chunks(s, n).push(leftover(s, n).push(v))[i] by {
                assert(0 <= i * d) by (nonlinear_arith)
                    requires
                        0 <= i,
                        0 < d,
                ;
                if i < q {
                    assert(i * d + d <= len) by (nonlinear_arith)
                        requires
                            0 <= i < q,
                            len == d * q + r,
                            0 <= r,
                            0 < d,
                    ;
                } else {
                    assert(i * d == len - r) by (nonlinear_arith)
                        requires
                            i == q,
                            len == d * q + r,
                    ;
                }
            }
            assert(whole_chunks(t, n) =~= whole_chunks(s, n).push(leftover(s, n).push(v)));
            assert(leftover(t, n) =~= Seq::<T>::empty());
        }
    }
}

/// Behind a sequence that ends on a chunk boundary, chunking starts afresh.
pub proof fn lemma_chunks_add<T>(s: Seq<T>, more: Seq<T>, n: nat)
    requires
        n > 0,
        leftover(s, n).len() == 0,
    ensures
        whole_chunks(s + more, n) == whole_chunks(s, n) + whole_chunks(more, n),
        leftover(s + more, n) == leftover(more, n),
    decreases more.len(),
{
    if more.len() == 0 {
        assert(s + more =~= s);
        assert(whole_chunks(more, n) =~= Seq::<Seq<T>>::empty()) by {
            assert(0int / (n as int) == 0);
        }
        assert(whole_chunks(s, n) + whole_chunks(more, n) =~= whole_chunks(s, n));
        assert(leftover(more, n) =~= Seq::<T>::empty());
        assert(leftover(s, n) =~= Seq::<T>::empty());
    } else {
        let init = more.drop_last();
        let v = more.last();
        lemma_chunks_add(s, init, n);
        assert(more =~= init.push(v));
        assert(s + more =~= (s + init).push(v));
        lemma_chunks_push(s + init, v, n);
        lemma_chunks_push(init, v, n);
        if leftover(init, n).len() + 1 < n {
        } else {
            assert(whole_chunks(s + more, n) =~= whole_chunks(s, n) + whole_chunks(more, n));
        }
    }
}

/// Chunking loses nothing and reorders nothing: every full chunk has `n` values, and the
/// full chunks joined, followed by the leftover, are the sequence again.
pub proof fn lemma_chunks_cover<T>(s: Seq<T>, n: nat)
    ensures
        forall|i: int|
            0 <= i < whole_chunks(s, n).len() ==> (#[trigger] whole_chunks(s, n)[i]).len() == n,
        whole_chunks(s, n).flatten() + leftover(s, n) == s,
    decreases s.len(),
{
    if s.len() == 0 {
        if n > 0 {
            assert(0int / (n as int) == 0);
        }
        assert(whole_chunks(s, n) =~= Seq::<Seq<T>>::empty());
        assert(whole_chunks(s, n).flatten() + leftover(s, n) =~= s);
    } else {
        let init = s.drop_last();
        let v = s.last();
        assert(s =~= init.push(v));
        lemma_chunks_cover(init, n);
        lemma_chunks_push(init, v, n);
        if n > 0 && leftover(init, n).len() + 1 == n {
            whole_chunks(init, n).lemma_flatten_push(leftover(init, n).push(v));
            assert(whole_chunks(s, n).flatten() + leftover(s, n) =~= (whole_chunks(
                init,
                n,
            ).flatten() + leftover(init, n)).push(v));
        } else {
            assert(whole_chunks(s, n).flatten() + leftover(s, n) =~= (whole_chunks(
                init,
                n,
            ).flatten() + leftover(init, n)).push(v));
        }
    }
}

/// Expanding distributes over appending one value.
pub proof fn lemma_expanded_push<T, U>(s: Seq<T>, v: T, g: spec_fn(T) -> Seq<U>)
    ensures
        expanded(s.push(v), g) == expanded(s, g) + g(v),
{
    assert(s.push(v).map_values(g) =~= s.map_values(g).push(g(v)));
    s.map_values(g).lemma_flatten_push(g(v));
}

/// Expanding distributes over concatenation.
pub proof fn lemma_expanded_add<T, U>(s: Seq<T>, more: Seq<T>, g: spec_fn(T) -> Seq<U>)
    ensures
        expanded(s + more, g) == expanded(s, g) + expanded(more, g),
{
    assert((s + more).map_values(g) =~= s.map_values(g) + more.map_values(g));
    vstd::seq_lib::lemma_flatten_concat(s.map_values(g), more.map_values(g));
}

} // verus!
