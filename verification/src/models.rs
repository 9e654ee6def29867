//! Listing the supported embedding models.
use vstd::prelude::*;
use crate::text::{chars_of, push_all, string_from_chars};

verus! {

/// The decimal digit `d` as a character.
pub open spec fn digit_char(d: nat) -> char {
    ((48 + d) as u8) as char
}

/// The decimal notation of `n`, without leading zeros.
pub open spec fn decimal(n: nat) -> Seq<char>
    decreases n,
{
    if n < 10 {
        seq![digit_char(n)]
    } else {
        decimal(n / 10).push(digit_char(n % 10))
    }
}

/// Appends the decimal notation of `n` to `out`.
pub fn push_decimal(out: &mut Vec<char>, n: usize)
    ensures
        final(out)@ == old(out)@ + decimal(n as nat),
    decreases n,
{
    if n >= 10 {
        push_decimal(out, n / 10);
    }
    let d = (n % 10) as u8;
    out.push((48u8 + d) as char);
    proof {
        if n >= 10 {
            assert(decimal(n as nat) == decimal((n / 10) as nat).push(digit_char((n % 10) as nat)));
        }
    }
}

/// The line that presents a model: `<name> (dim: <dim>)`.
pub open spec fn model_line(name: Seq<char>, dim: nat) -> Seq<char> {
    name + " (dim: "@ + decimal(dim) + ")"@
}

/// The lines that present the models `models`, one per model, in order.
pub fn list_models(models: &Vec<(String, usize)>) -> (lines: Vec<String>)
    ensures
        lines@.len() == models@.len(),
        forall|i: int|
            0 <= i < models@.len() ==> #[trigger] lines@[i]@ == model_line(
                models@[i].0@,
                models@[i].1 as nat,
            ),
{
    let mut lines: Vec<String> = Vec::new();
    let mut i: usize = 0;
    while i < models.len()
        invariant
            0 <= i <= models.len(),
            lines@.len() == i,
            forall|j: int|
                0 <= j < i ==> #[trigger] lines@[j]@ == model_line(
                    models@[j].0@,
                    models@[j].1 as nat,
                ),
        decreases models.len() - i,
    {
        let mut line: Vec<char> = chars_of(models[i].0.as_str());
        let open = chars_of(" (dim: ");
        push_all(&mut line, &open);
        push_decimal(&mut line, models[i].1);
        line.push(')');
        proof {
            reveal_strlit(")");
        }
        lines.push(string_from_chars(&line));
        assert(lines@[i as int]@ =~= model_line(models@[i as int].0@, models@[i as int].1 as nat));
        i = i + 1;
    }
    lines
}

/// The number that the decimal digits `s` stand for.
pub open spec fn decimal_value(s: Seq<char>) -> int
    decreases s.len(),
{
    if s.len() == 0 {
        0
    } else {
        decimal_value(s.drop_last()) * 10 + (s.last() as u32 - 48)
    }
}

/// The decimal notation reads back as the number it was written for, and
/// has no leading zero.
pub proof fn law_decimal_reads_back(n: nat)
    ensures
        decimal_value(decimal(n)) == n,
        decimal(n).len() > 0,
        n > 0 ==> decimal(n)[0] != '0',
    decreases n,
{
    let c = digit_char(n % 10);
    assert(c as u32 == 48 + n % 10);
    if n >= 10 {
        law_decimal_reads_back(n / 10);
        let d = decimal(n);
        assert(d == decimal(n / 10).push(c));
        assert(d.drop_last() =~= decimal(n / 10));
        assert(d.last() == c);
        assert(d[0] == decimal(n / 10)[0]);
        assert(decimal_value(d) == decimal_value(decimal(n / 10)) * 10 + (c as u32 - 48));
        assert((n / 10) * 10 + n % 10 == n);
        assert(decimal_value(d) == (n / 10) * 10 + n % 10);
    } else {
        let d = decimal(n);
        assert(d == seq![digit_char(n)]);
        assert(d.drop_last() =~= Seq::<char>::empty());
        assert(digit_char(n) as u32 == 48 + n);
        assert(decimal_value(Seq::<char>::empty()) == 0);
        assert(d.last() == digit_char(n));
        assert(decimal_value(d) == decimal_value(d.drop_last()) * 10 + (d.last() as u32 - 48));
    }
}

/// The decimal notation of a number is made of the digits `0` to `9` only.
pub proof fn law_decimal_is_digits(n: nat)
    ensures
        forall|i: int| 0 <= i < decimal(n).len() ==> '0' <= #[trigger] decimal(n)[i] <= '9',
    decreases n,
{
    assert((48 + n % 10) as u8 as char == digit_char(n % 10));
    if n >= 10 {
        law_decimal_is_digits(n / 10);
        let d = decimal(n);
        assert(d == decimal(n / 10).push(digit_char(n % 10)));
        assert forall|i: int| 0 <= i < d.len() implies '0' <= #[trigger] d[i] <= '9' by {
            if i < d.len() - 1 {
                assert(d[i] == decimal(n / 10)[i]);
            } else {
                assert(d[i] == digit_char(n % 10));
                assert(digit_char(n % 10) as u32 == 48 + n % 10);
            }
        }
    } else {
        assert(decimal(n) == seq![digit_char(n)]);
        assert(digit_char(n) as u32 == 48 + n);
    }
}

/// The line that presents a model is its name, then ` (dim: `, then its
/// dimension in decimal digits without a leading zero, then `)`.
pub proof fn law_model_line_format(name: Seq<char>, dim: nat)
    ensures
        exists|d: Seq<char>|
            {
                &&& model_line(name, dim) == name + seq![' ', '(', 'd', 'i', 'm', ':', ' '] + d
                    + seq![')']
                &&& d.len() > 0
                &&& forall|i: int| 0 <= i < d.len() ==> '0' <= #[trigger] d[i] <= '9'
                &&& (dim > 0 ==> d[0] != '0')
                &&& decimal_value(d) == dim
            },
{
    reveal_strlit(" (dim: ");
    reveal_strlit(")");
    law_decimal_reads_back(dim);
    law_decimal_is_digits(dim);
    let d = decimal(dim);
    assert(" (dim: "@ =~= seq![' ', '(', 'd', 'i', 'm', ':', ' ']);
    assert(")"@ =~= seq![')']);
    assert(model_line(name, dim) == name + seq![' ', '(', 'd', 'i', 'm', ':', ' '] + d + seq![')']);
}

} // verus!
