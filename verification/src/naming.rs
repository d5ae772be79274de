//! Output naming: the trimmed-output suffix, the cut numbering postfix, and
//! the detection of wav file names. Names are handled as UTF-8 bytes.

use vstd::prelude::*;

verus! {

/// The decimal digits of `n`, most significant first.
pub open spec fn decimal_digits(n: nat) -> Seq<u8>
    decreases n,
{
    if n < 10 {
        seq![(48 + n) as u8]
    } else {
        decimal_digits(n / 10) + seq![(48 + n % 10) as u8]
    }
}

/// The decimal digits of `n`, zero-padded on the left to at least two
/// digits.
pub open spec fn two_digit_decimal(n: nat) -> Seq<u8> {
    if n < 10 {
        seq![48u8] + decimal_digits(n)
    } else {
        decimal_digits(n)
    }
}

/// Writes `n` in decimal with at least two digits.
pub fn format_two_digits(n: usize) -> (r: Vec<u8>)
    ensures
        r@ == two_digit_decimal(n as nat),
{
    let mut digits: Vec<u8> = Vec::new();
    digits.push(48 + (n % 10) as u8);
    proof {
        if n < 10 {
            assert(digits@ =~= decimal_digits(n as nat));
        } else {
            assert(decimal_digits(n as nat) =~= decimal_digits(n as nat / 10) + digits@);
        }
    }
    let mut m = n / 10;
    while m > 0
        invariant
            digits@.len() >= 1,
            decimal_digits(n as nat) == if m > 0 {
                decimal_digits(m as nat) + digits@
            } else {
                digits@
            },
        decreases m,
    {
        let d: u8 = 48 + (m % 10) as u8;
        let ghost before = digits@;
        proof {
            if m >= 10 {
                assert(decimal_digits(m as nat) + before =~= decimal_digits(m as nat / 10) + (seq![
                    d,
                ] + before));
            } else {
                assert(decimal_digits(m as nat) + before =~= seq![d] + before);
            }
        }
        digits.insert(0, d);
        proof {
            assert(digits@ =~= seq![d] + before);
        }
        m = m / 10;
    }
    if n < 10 {
        let ghost before = digits@;
        digits.insert(0, 48);
        proof {
            assert(digits@ =~= seq![48u8] + before);
        }
    }
    digits
}

/// The postfix one cut carries: the configured postfix followed by the
/// 1-based sequence number, zero-padded to two digits.
pub fn cut_postfix(postfix: &Vec<u8>, index: usize) -> (r: Vec<u8>)
    requires
        index < usize::MAX,
    ensures
        r@ == postfix@ + two_digit_decimal((index + 1) as nat),
{
    let mut out: Vec<u8> = Vec::new();
    let mut i: usize = 0;
    while i < postfix.len()
        invariant
            i <= postfix@.len(),
            out@ == postfix@.take(i as int),
        decreases postfix@.len() - i,
    {
        out.push(postfix[i]);
        proof {
            assert(postfix@.take(i + 1) =~= postfix@.take(i as int).push(postfix@[i as int]));
        }
        i = i + 1;
    }
    proof {
        assert(postfix@.take(postfix@.len() as int) =~= postfix@);
    }
    let digits = format_two_digits(index + 1);
    let mut j: usize = 0;
    while j < digits.len()
        invariant
            j <= digits@.len(),
            out@ == postfix@ + digits@.take(j as int),
        decreases digits@.len() - j,
    {
        out.push(digits[j]);
        proof {
            assert(postfix@ + digits@.take(j + 1) =~= (postfix@ + digits@.take(j as int)).push(
                digits@[j as int],
            ));
        }
        j = j + 1;
    }
    proof {
        assert(digits@.take(digits@.len() as int) =~= digits@);
    }
    out
}

/// The suffix a non-overwriting run appends to the file stem.
pub open spec fn stripped_suffix() -> Seq<u8> {
    seq![95u8, 115u8, 116u8, 114u8, 105u8, 112u8, 112u8, 101u8, 100u8]
}

/// The wav file extension, dot included.
pub open spec fn wav_suffix() -> Seq<u8> {
    seq![46u8, 119u8, 97u8, 118u8]
}

/// Builds an output file name from the input stem: the stem, then the
/// trimmed-output suffix unless the input is overwritten, then the cut
/// postfix if one applies, then the wav extension.
pub fn output_file_name(stem: &Vec<u8>, overwrite: bool, postfix: Option<&Vec<u8>>) -> (r: Vec<u8>)
    ensures
        r@ == stem@ + (if overwrite {
            Seq::<u8>::empty()
        } else {
            stripped_suffix()
        }) + (match postfix {
            Some(p) => p@,
            None => Seq::<u8>::empty(),
        }) + wav_suffix(),
{
    let ghost mid = stem@ + (if overwrite {
        Seq::<u8>::empty()
    } else {
        stripped_suffix()
    }) + (match postfix {
        Some(p) => p@,
        None => Seq::<u8>::empty(),
    });
    let mut out: Vec<u8> = Vec::new();
    let mut i: usize = 0;
    while i < stem.len()
        invariant
            i <= stem@.len(),
            out@ == stem@.take(i as int),
        decreases stem@.len() - i,
    {
        out.push(stem[i]);
        proof {
            assert(stem@.take(i + 1) =~= stem@.take(i as int).push(stem@[i as int]));
        }
        i = i + 1;
    }
    proof {
        assert(stem@.take(stem@.len() as int) =~= stem@);
    }
    if !overwrite {
        out.push(95);
        out.push(115);
        out.push(116);
        out.push(114);
        out.push(105);
        out.push(112);
        out.push(112);
        out.push(101);
        out.push(100);
        proof {
            assert(out@ =~= stem@ + stripped_suffix());
        }
    }
    if let Some(p) = postfix {
        let mut j: usize = 0;
        let ghost base = out@;
        while j < p.len()
            invariant
                j <= p@.len(),
                out@ == base + p@.take(j as int),
            decreases p@.len() - j,
        {
            out.push(p[j]);
            proof {
                assert(base + p@.take(j + 1) =~= (base + p@.take(j as int)).push(p@[j as int]));
            }
            j = j + 1;
        }
        proof {
            assert(p@.take(p@.len() as int) =~= p@);
        }
    }
    proof {
        assert(out@ =~= mid);
    }
    out.push(46);
    out.push(119);
    out.push(97);
    out.push(118);
    proof {
        assert(out@ =~= mid + wav_suffix());
    }
    out
}

/// Lowercases one ASCII letter; every other byte is kept as it is.
pub open spec fn ascii_lower(b: u8) -> u8 {
    if 65 <= b <= 90 {
        (b + 32) as u8
    } else {
        b
    }
}

/// The bytes after the last dot of a name, or the whole name when it holds
/// no dot.
pub open spec fn last_dot_component(s: Seq<u8>) -> Seq<u8>
    decreases s.len(),
{
    if s.len() == 0 {
        s
    } else if s.last() == 46u8 {
        Seq::empty()
    } else {
        last_dot_component(s.drop_last()) + seq![s.last()]
    }
}

/// Whether a file name names a wav file: its last dot-separated component,
/// lowercased, is `wav`.
pub open spec fn is_wav_name(s: Seq<u8>) -> bool {
    last_dot_component(s).map_values(|b: u8| ascii_lower(b)) == seq![119u8, 97u8, 118u8]
}

/// Decides whether a file name (as UTF-8 bytes) names a wav file.
pub fn is_wav_file_name(name: &Vec<u8>) -> (r: bool)
    ensures
        r == is_wav_name(name@),
{
    let mut comp: Vec<u8> = Vec::new();
    let mut j = name.len();
    proof {
        assert(name@.take(j as int) =~= name@);
        assert(last_dot_component(name@) + comp@ =~= last_dot_component(name@));
    }
    while j > 0
        invariant
            j <= name@.len(),
            last_dot_component(name@) == last_dot_component(name@.take(j as int)) + comp@,
        ensures
            j <= name@.len(),
            last_dot_component(name@) == last_dot_component(name@.take(j as int)) + comp@,
            j == 0 || name@[j - 1] == 46u8,
        decreases j,
    {
        let b = name[j - 1];
        proof {
            let cur = name@.take(j as int);
            assert(cur.last() == name@[j - 1]);
            assert(cur.drop_last() =~= name@.take(j - 1));
        }
        if b == 46 {
            break ;
        }
        let ghost before = comp@;
        comp.insert(0, b);
        proof {
            assert(comp@ =~= seq![b] + before);
            assert(last_dot_component(name@.take(j - 1)) + (seq![b] + before)
                =~= (last_dot_component(name@.take(j - 1)) + seq![b]) + before);
        }
        j = j - 1;
    }
    proof {
        if j == 0 {
            assert(name@.take(0) =~= Seq::<u8>::empty());
            assert(last_dot_component(name@.take(0)) + comp@ =~= comp@);
        } else {
            assert(name@.take(j as int).last() == 46u8);
            assert(last_dot_component(name@.take(j as int)) + comp@ =~= comp@);
        }
        assert(comp@ == last_dot_component(name@));
    }
    if comp.len() != 3 {
        proof {
            assert(comp@.map_values(|b: u8| ascii_lower(b)).len() != 3);
        }
        return false;
    }
    let c0 = lower_byte(comp[0]);
    let c1 = lower_byte(comp[1]);
    let c2 = lower_byte(comp[2]);
    let r = c0 == 119 && c1 == 97 && c2 == 118;
    proof {
        let mapped = comp@.map_values(|b: u8| ascii_lower(b));
        assert(mapped.len() == 3);
        assert(mapped[0] == ascii_lower(comp@[0]));
        assert(mapped[1] == ascii_lower(comp@[1]));
        assert(mapped[2] == ascii_lower(comp@[2]));
        if r {
            assert(mapped =~= seq![119u8, 97u8, 118u8]);
        } else {
            assert(mapped != seq![119u8, 97u8, 118u8]);
        }
    }
    r
}

/// Lowercases one ASCII byte.
fn lower_byte(b: u8) -> (r: u8)
    ensures
        r == ascii_lower(b),
{
    if b >= 65 && b <= 90 {
        b + 32
    } else {
        b
    }
}

} // verus!
