//! Text of a hardware module that multiplies its input by the constant a CSD string encodes,
//! with one shifted copy of the input per non-zero digit.
use vstd::prelude::*;
use crate::csd::chars_of;

verus! {

/// Why a multiplier cannot be generated.
#[derive(Debug, Clone, Copy, PartialEq, Eq)]
pub enum MultiplierError {
    /// The string does not hold exactly `m + 1` digits.
    LengthMismatch,
    /// The string holds a character other than `+`, `-` and `0`.
    InvalidDigit,
}

/// The decimal digit character for `d < 10`.
pub open spec fn digit_char(d: nat) -> char {
    if d == 0 {
        '0'
    } else if d == 1 {
        '1'
    } else if d == 2 {
        '2'
    } else if d == 3 {
        '3'
    } else if d == 4 {
        '4'
    } else if d == 5 {
        '5'
    } else if d == 6 {
        '6'
    } else if d == 7 {
        '7'
    } else if d == 8 {
        '8'
    } else {
        '9'
    }
}

/// Decimal digits of `v`, most significant first, with no leading zeros.
pub open spec fn decimal_text(v: nat) -> Seq<char>
    decreases v,
{
    if v < 10 {
        seq![digit_char(v)]
    } else {
        decimal_text(v / 10) + seq![digit_char(v % 10)]
    }
}

/// Relies on `ToString` for `usize` (through its `Display`): the decimal digits of the
/// number, with no sign, padding or leading zeros.
#[verifier::external_body]
fn decimal(v: usize) -> (r: String)
    ensures
        r@ == decimal_text(v as nat),
{
    v.to_string()
}

/// Every character is `+`, `-` or `0`.
pub open spec fn is_digit_string(csd: Seq<char>) -> bool {
    forall|i: int| 0 <= i < csd.len() ==> #[trigger] csd[i] == '+' || csd[i] == '-' || csd[i] == '0'
}

/// Some digit is not `0`.
pub open spec fn has_terms(csd: Seq<char>) -> bool {
    exists|i: int| 0 <= i < csd.len() && #[trigger] csd[i] != '0'
}

/// The module header: an `n`-bit signed input `x` and an `n + m`-bit signed output `result`.
pub open spec fn header_text(n: nat, m: nat) -> Seq<char> {
    "\nmodule csd_multiplier (\n    input signed ["@ + decimal_text((n - 1) as nat)
        + ":0] x,      // Input value\n    output signed ["@ + decimal_text((n + m - 1) as nat)
        + ":0] result // Result of multiplication\n);"@
}

/// The wire that holds the input shifted left by `p`, widened to `n + m` bits.
pub open spec fn shift_line(n: nat, m: nat, p: nat) -> Seq<char> {
    "\n    wire signed ["@ + decimal_text((n + m - 1) as nat) + ":0] x_shift"@ + decimal_text(p)
        + " = x <<< "@ + decimal_text(p) + ";"@
}

/// One line per non-zero digit from position `i` on: a wire holding the input shifted left by
/// that digit's power `m - i`, widened to `n + m` bits. The powers fall from left to right, so
/// each comes once and in descending order.
pub open spec fn shift_lines(csd: Seq<char>, n: nat, m: nat, i: nat) -> Seq<char>
    decreases csd.len() - i,
{
    if i >= csd.len() {
        Seq::empty()
    } else {
        (if csd[i as int] == '0' {
            Seq::empty()
        } else {
            shift_line(n, m, (m - i) as nat)
        }) + shift_lines(csd, n, m, i + 1)
    }
}

/// The sum of the shifted inputs from position `i` on: the first term (while `first`) is
/// written bare, each later one with ` + ` or ` - ` after its digit.
pub open spec fn term_expr(csd: Seq<char>, m: nat, i: nat, first: bool) -> Seq<char>
    decreases csd.len() - i,
{
    if i >= csd.len() {
        Seq::empty()
    } else if csd[i as int] == '0' {
        term_expr(csd, m, i + 1, first)
    } else {
        (if first {
            "x_shift"@
        } else if csd[i as int] == '+' {
            " + x_shift"@
        } else {
            " - x_shift"@
        }) + decimal_text((m - i) as nat) + term_expr(csd, m, i + 1, false)
    }
}

/// The whole module for the digits `csd` (power `m` first), input width `n`.
pub open spec fn multiplier_text(csd: Seq<char>, n: nat, m: nat) -> Seq<char> {
    header_text(n, m) + (if has_terms(csd) {
        "\n\n    // Create shifted versions of input"@ + shift_lines(csd, n, m, 0)
    } else {
        Seq::empty()
    }) + "\n\n    // CSD implementation"@ + (if has_terms(csd) {
        "\n    assign result = "@ + term_expr(csd, m, 0, true) + ";"@
    } else {
        "\n    assign result = 0;"@
    }) + "\nendmodule\n"@
}

/// Module text that multiplies an `n`-bit signed input by the constant the CSD string `csd`
/// encodes, where `m` is the power of its first digit. The string is checked first: it must
/// hold `m + 1` digits, each `+`, `-` or `0`.
pub fn generate_csd_multiplier(csd: &str, n: usize, m: usize) -> (r: Result<
    String,
    MultiplierError,
>)
    requires
        n >= 1,
        n + m <= usize::MAX,
    ensures
        csd@.len() != m + 1 ==> r == Err::<String, MultiplierError>(
            MultiplierError::LengthMismatch,
        ),
        csd@.len() == m + 1 && !is_digit_string(csd@) ==> r == Err::<String, MultiplierError>(
            MultiplierError::InvalidDigit,
        ),
        csd@.len() == m + 1 && is_digit_string(csd@) ==> r is Ok && r->Ok_0@ == multiplier_text(
            csd@,
            n as nat,
            m as nat,
        ),
{
    let c = chars_of(csd);
    let len = c.len();
    if len != m + 1 {
        return Err(MultiplierError::LengthMismatch);
    }
    let mut k: usize = 0;
    let mut any = false;
    while k < len
        invariant
            len == c@.len(),
            c@ == csd@,
            len == m + 1,
            k <= len,
            forall|i: int| 0 <= i < k ==> #[trigger] c@[i] == '+' || c@[i] == '-' || c@[i] == '0',
            any <==> exists|i: int| 0 <= i < k && #[trigger] c@[i] != '0',
        decreases len - k,
    {
        let ch = c[k];
        if ch != '+' && ch != '-' && ch != '0' {
            return Err(MultiplierError::InvalidDigit);
        }
        if ch != '0' {
            any = true;
        }
        k = k + 1;
    }
    let ghost s = c@;
    let ghost nn = n as nat;
    let ghost mm = m as nat;
    let wide = decimal(n + m - 1);
    let mut out = String::from_str("\nmodule csd_multiplier (\n    input signed [");
    out.append(decimal(n - 1).as_str());
    out.append(":0] x,      // Input value\n    output signed [");
    out.append(wide.as_str());
    out.append(":0] result // Result of multiplication\n);");
    assert(out@ =~= header_text(nn, mm));
    if any {
        out.append("\n\n    // Create shifted versions of input");
        let ghost start = out@;
        let mut i: usize = 0;
        while i < len
            invariant
                len == s.len() == m + 1,
                nn == n,
                mm == m,
                c@ == s,
                i <= len,
                wide@ == decimal_text((nn + mm - 1) as nat),
                out@ + shift_lines(s, nn, mm, i as nat) == start + shift_lines(s, nn, mm, 0),
            decreases len - i,
        {
            let ghost before = out@;
            if c[i] != '0' {
                let p = decimal(m - i);
                let mut line = String::from_str("\n    wire signed [");
                line.append(wide.as_str());
                line.append(":0] x_shift");
                line.append(p.as_str());
                line.append(" = x <<< ");
                line.append(p.as_str());
                line.append(";");
                assert(line@ == shift_line(nn, mm, (m - i) as nat));
                out.append(line.as_str());
                assert(shift_lines(s, nn, mm, i as nat) == line@ + shift_lines(
                    s,
                    nn,
                    mm,
                    (i + 1) as nat,
                ));
            } else {
                assert(shift_lines(s, nn, mm, i as nat) =~= shift_lines(s, nn, mm, (i + 1) as nat));
            }
            assert(before + shift_lines(s, nn, mm, i as nat) =~= out@ + shift_lines(
                s,
                nn,
                mm,
                (i + 1) as nat,
            ));
            i = i + 1;
        }
        assert(out@ =~= out@ + shift_lines(s, nn, mm, i as nat));
    }
    out.append("\n\n    // CSD implementation");
    if any {
        out.append("\n    assign result = ");
        let ghost start = out@;
        let mut first = true;
        let mut i: usize = 0;
        while i < len
            invariant
                len == s.len() == m + 1,
                nn == n,
                mm == m,
                c@ == s,
                i <= len,
                out@ + term_expr(s, mm, i as nat, first) == start + term_expr(s, mm, 0, true),
            decreases len - i,
        {
            let ghost before = out@;
            let ghost was_first = first;
            if c[i] != '0' {
                let mut term = if first {
                    String::from_str("x_shift")
                } else if c[i] == '+' {
                    String::from_str(" + x_shift")
                } else {
                    String::from_str(" - x_shift")
                };
                term.append(decimal(m - i).as_str());
                out.append(term.as_str());
                first = false;
                assert(term_expr(s, mm, i as nat, was_first) == term@ + term_expr(
                    s,
                    mm,
                    (i + 1) as nat,
                    false,
                ));
            }
            assert(before + term_expr(s, mm, i as nat, was_first) =~= out@ + term_expr(
                s,
                mm,
                (i + 1) as nat,
                first,
            ));
            i = i + 1;
        }
        assert(out@ =~= out@ + term_expr(s, mm, i as nat, first));
        out.append(";");
    } else {
        out.append("\n    assign result = 0;");
    }
    out.append("\nendmodule\n");
    assert(out@ =~= multiplier_text(s, nn, mm));
    Ok(out)
}

} // verus!
