use vstd::prelude::*;

verus! {

/// The `w`-character binary expansion of `v`, most significant bit first.
/// Bits above the width are dropped.
pub open spec fn bits(v: nat, w: nat) -> Seq<char>
    decreases w,
{
    if w == 0 {
        Seq::empty()
    } else {
        bits(v / 2, (w - 1) as nat).push(if v % 2 == 1 {
            '1'
        } else {
            '0'
        })
    }
}

pub broadcast proof fn lemma_bits_len(v: nat, w: nat)
    ensures
        (#[trigger] bits(v, w)).len() == w,
    decreases w,
{
    if w > 0 {
        lemma_bits_len(v / 2, (w - 1) as nat);
    }
}

pub broadcast proof fn lemma_bits_01(v: nat, w: nat, i: int)
    requires
        0 <= i < w,
    ensures
        #[trigger] bits(v, w)[i] == '0' || bits(v, w)[i] == '1',
    decreases w,
{
    broadcast use lemma_bits_len;

    if i < w - 1 {
        lemma_bits_01(v / 2, (w - 1) as nat, i);
    }
}

/// The character at distance `i` from the right end of the expansion
/// shows bit `i` of `v`.
pub proof fn lemma_bits_index(v: nat, w: nat, i: nat)
    requires
        i < w,
    ensures
        bits(v, w)[w - 1 - i] == (if (v / vstd::arithmetic::power2::pow2(i)) % 2 == 1 {
            '1'
        } else {
            '0'
        }),
    decreases w,
{
    broadcast use lemma_bits_len;

    vstd::arithmetic::power2::lemma2_to64();
    if i == 0 {
        assert(v / vstd::arithmetic::power2::pow2(0) == v);
    } else {
        lemma_bits_index(v / 2, (w - 1) as nat, (i - 1) as nat);
        assert(bits(v, w)[w - 1 - i] == bits(v / 2, (w - 1) as nat)[(w - 1) - 1 - (i - 1)]);
        vstd::arithmetic::power2::lemma_pow2_unfold(i);
        vstd::arithmetic::power2::lemma_pow2_pos((i - 1) as nat);
        vstd::arithmetic::div_mod::lemma_div_denominator(
            v as int,
            2,
            vstd::arithmetic::power2::pow2((i - 1) as nat) as int,
        );
        assert((v / 2) / vstd::arithmetic::power2::pow2((i - 1) as nat) == v
            / vstd::arithmetic::power2::pow2(i));
    }
}

/// Appends the `w`-bit binary expansion of `v` to `out`.
pub(crate) fn push_bits(out: &mut Vec<char>, v: u32, w: usize)
    ensures
        final(out)@ == old(out)@ + bits(v as nat, w as nat),
    decreases w,
{
    if w == 0 {
        proof {
            assert(out@ =~= old(out)@ + bits(v as nat, 0));
        }
        return ;
    }
    push_bits(out, v / 2, w - 1);
    let c = if v % 2 == 1 {
        '1'
    } else {
        '0'
    };
    out.push(c);
    proof {
        assert(out@ =~= old(out)@ + bits(v as nat, w as nat));
    }
}

} // verus!
