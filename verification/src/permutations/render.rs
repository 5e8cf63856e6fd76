//! Canonical text form of permutations: each permutation renders as its
//! values in decimal, joined by commas and terminated by a line break; a
//! chunk renders as the concatenation of its permutations' lines.

use vstd::prelude::*;
use vstd::string::StringExecFns;

verus! {

/// The decimal digit character for `d`.
pub open spec fn dec_digit(d: nat) -> char {
    if d == 0 {
        '0'
    } else if d == 1 {
        '1'
    } else if d == 2 {
        '2'
    } else if d == 3 {
        '3'
    } else if d == 4 {
        '4'
    } else if d == 5 {
        '5'
    } else if d == 6 {
        '6'
    } else if d == 7 {
        '7'
    } else if d == 8 {
        '8'
    } else {
        '9'
    }
}

/// The decimal representation of `n`, most significant digit first.
pub open spec fn dec_rep(n: nat) -> Seq<char>
    decreases n,
{
    if n < 10 {
        seq![dec_digit(n)]
    } else {
        dec_rep(n / 10).push(dec_digit(n % 10))
    }
}

/// One rendered permutation: decimal values joined by `,`, ending in `\n`.
pub open spec fn render_perm(p: Seq<u64>) -> Seq<char>
    decreases p.len(),
{
    if p.len() == 0 {
        seq!['\n']
    } else if p.len() == 1 {
        dec_rep(p[0] as nat).push('\n')
    } else {
        dec_rep(p[0] as nat).push(',') + render_perm(p.drop_first())
    }
}

/// The rendered permutations, concatenated in order.
pub open spec fn render_perms(ps: Seq<Seq<u64>>) -> Seq<char>
    decreases ps.len(),
{
    if ps.len() == 0 {
        Seq::empty()
    } else {
        render_perms(ps.drop_last()) + render_perm(ps.last())
    }
}

/// Append the decimal digit `d` to `out`.
fn push_digit(out: &mut String, d: u64)
    requires
        d < 10,
    ensures
        final(out)@ == old(out)@.push(dec_digit(d as nat)),
{
    if d == 0 {
        out.append("0");
        proof {
            reveal_strlit("0");
            assert(final(out)@ =~= old(out)@.push('0'));
        }
    } else if d == 1 {
        out.append("1");
        proof {
            reveal_strlit("1");
            assert(final(out)@ =~= old(out)@.push('1'));
        }
    } else if d == 2 {
        out.append("2");
        proof {
            reveal_strlit("2");
            assert(final(out)@ =~= old(out)@.push('2'));
        }
    } else if d == 3 {
        out.append("3");
        proof {
            reveal_strlit("3");
            assert(final(out)@ =~= old(out)@.push('3'));
        }
    } else if d == 4 {
        out.append("4");
        proof {
            reveal_strlit("4");
            assert(final(out)@ =~= old(out)@.push('4'));
        }
    } else if d == 5 {
        out.append("5");
        proof {
            reveal_strlit("5");
            assert(final(out)@ =~= old(out)@.push('5'));
        }
    } else if d == 6 {
        out.append("6");
        proof {
            reveal_strlit("6");
            assert(final(out)@ =~= old(out)@.push('6'));
        }
    } else if d == 7 {
        out.append("7");
        proof {
            reveal_strlit("7");
            assert(final(out)@ =~= old(out)@.push('7'));
        }
    } else if d == 8 {
        out.append("8");
        proof {
            reveal_strlit("8");
            assert(final(out)@ =~= old(out)@.push('8'));
        }
    } else {
        out.append("9");
        proof {
            reveal_strlit("9");
            assert(final(out)@ =~= old(out)@.push('9'));
        }
    }
}

/// Append the decimal representation of `n` to `out`.
pub(crate) fn push_u64(out: &mut String, n: u64)
    ensures
        final(out)@ == old(out)@ + dec_rep(n as nat),
    decreases n,
{
    if n < 10 {
        push_digit(out, n);
        assert(final(out)@ =~= old(out)@ + dec_rep(n as nat));
    } else {
        push_u64(out, n / 10);
        push_digit(out, n % 10);
        assert((n / 10) as nat == n as nat / 10);
        assert((n % 10) as nat == n as nat % 10);
        assert(final(out)@ =~= old(out)@ + dec_rep(n as nat));
    }
}

/// Append the rendering of the permutation `p[i..]` to `out`.
pub(crate) fn push_perm(out: &mut String, p: &Vec<u64>, i: usize)
    requires
        i <= p@.len(),
    ensures
        final(out)@ == old(out)@ + render_perm(p@.skip(i as int)),
    decreases p@.len() - i,
{
    let ghost tail = p@.skip(i as int);
    if i == p.len() {
        out.append("\n");
        proof {
            reveal_strlit("\n");
            assert(tail =~= Seq::<u64>::empty());
            assert(final(out)@ =~= old(out)@ + render_perm(tail));
        }
    } else if i + 1 == p.len() {
        push_u64(out, p[i]);
        out.append("\n");
        proof {
            reveal_strlit("\n");
            assert(tail.len() == 1);
            assert(tail[0] == p@[i as int]);
            assert(final(out)@ =~= old(out)@ + render_perm(tail));
        }
    } else {
        push_u64(out, p[i]);
        out.append(",");
        proof {
            reveal_strlit(",");
        }
        let ghost mid = out@;
        push_perm(out, p, i + 1);
        proof {
            assert(tail[0] == p@[i as int]);
            assert(tail.drop_first() =~= p@.skip(i as int + 1));
            assert(mid =~= old(out)@ + dec_rep(p@[i as int] as nat).push(','));
            assert(final(out)@ =~= old(out)@ + render_perm(tail));
        }
    }
}

} // verus!
