//! Building text: decimal numerals and the debug rendering of optional values.
use vstd::prelude::*;

verus! {

/// The character of the decimal digit `d` (`d < 10`).
pub open spec fn digit_char(d: nat) -> char {
    (48 + d) as char
}

/// The decimal numeral of `n`, without sign or leading zeros.
pub open spec fn decimal(n: nat) -> Seq<char>
    decreases n,
{
    if n < 10 {
        seq![digit_char(n)]
    } else {
        decimal(n / 10).push(digit_char(n % 10))
    }
}

fn digit_str(d: u64) -> (s: &'static str)
    requires
        d < 10,
    ensures
        s@ == seq![digit_char(d as nat)],
{
    proof {
        reveal_strlit("0");
        reveal_strlit("1");
        reveal_strlit("2");
        reveal_strlit("3");
        reveal_strlit("4");
        reveal_strlit("5");
        reveal_strlit("6");
        reveal_strlit("7");
        reveal_strlit("8");
        reveal_strlit("9");
    }
    if d == 0 {
        "0"
    } else if d == 1 {
        "1"
    } else if d == 2 {
        "2"
    } else if d == 3 {
        "3"
    } else if d == 4 {
        "4"
    } else if d == 5 {
        "5"
    } else if d == 6 {
        "6"
    } else if d == 7 {
        "7"
    } else if d == 8 {
        "8"
    } else {
        "9"
    }
}

/// Appends the decimal numeral of `n` to `out`.
pub fn push_decimal(out: &mut String, n: u64)
    ensures
        final(out)@ == old(out)@ + decimal(n as nat),
    decreases n,
{
    if n < 10 {
        out.append(digit_str(n));
    } else {
        push_decimal(out, n / 10);
        out.append(digit_str(n % 10));
        proof {
            assert(decimal(n as nat) == decimal((n / 10) as nat).push(digit_char((n % 10) as nat)));
        }
    }
}

/// What `{:?}` renders a string as (quoted, with escapes). It depends on the
/// string alone.
pub uninterp spec fn debug_text(s: Seq<char>) -> Seq<char>;

/// Renders `s` with std's `Debug` formatting (`format!("{:?}", s)`): the
/// result is `debug_text` of the string's characters.
#[verifier::external_body]
fn string_debug(s: &String) -> (r: String)
    ensures
        r@ == debug_text(s@),
{
    format!("{:?}", s)
}

/// `{:?}` of an `Option<u64>`.
pub open spec fn debug_option_u64(o: Option<u64>) -> Seq<char> {
    match o {
        Some(n) => "Some("@ + decimal(n as nat) + ")"@,
        None => "None"@,
    }
}

/// `{:?}` of an `Option<String>`, given by the characters of the string.
pub open spec fn debug_option_text(o: Option<Seq<char>>) -> Seq<char> {
    match o {
        Some(s) => "Some("@ + debug_text(s) + ")"@,
        None => "None"@,
    }
}

/// Appends the `{:?}` rendering of `o` to `out`.
pub fn push_debug_option_u64(out: &mut String, o: Option<u64>)
    ensures
        final(out)@ == old(out)@ + debug_option_u64(o),
{
    match o {
        Some(n) => {
            out.append("Some(");
            push_decimal(out, n);
            out.append(")");
            assert(out@ =~= old(out)@ + debug_option_u64(o));
        },
        None => {
            out.append("None");
        },
    }
}

/// Appends the `{:?}` rendering of `o` to `out`.
pub fn push_debug_option_string(out: &mut String, o: &Option<String>)
    ensures
        final(out)@ == old(out)@ + debug_option_text(
            match o {
                Some(s) => Some(s@),
                None => None,
            },
        ),
{
    match o {
        Some(s) => {
            out.append("Some(");
            let d = string_debug(s);
            out.append(d.as_str());
            out.append(")");
            assert(out@ =~= old(out)@ + ("Some("@ + debug_text(s@) + ")"@));
        },
        None => {
            out.append("None");
        },
    }
}

/// The lines joined with a newline between each two.
pub open spec fn join_lines(lines: Seq<Seq<char>>) -> Seq<char>
    decreases lines.len(),
{
    if lines.len() == 0 {
        Seq::<char>::empty()
    } else if lines.len() == 1 {
        lines[0]
    } else {
        join_lines(lines.drop_last()) + seq!['\n'] + lines.last()
    }
}

/// The lines of `lines` joined with a newline between each two.
pub fn join_with_newlines(lines: &Vec<String>) -> (r: String)
    ensures
        r@ == join_lines(lines@.map_values(|s: String| s@)),
{
    let ghost all = lines@.map_values(|s: String| s@);
    let mut r = String::new();
    let mut i: usize = 0;
    while i < lines.len()
        invariant
            i <= lines.len(),
            all == lines@.map_values(|s: String| s@),
            r@ == join_lines(all.take(i as int)),
        decreases lines.len() - i,
    {
        proof {
            assert(all.take(i + 1).drop_last() =~= all.take(i as int));
            reveal_strlit("\n");
        }
        if i > 0 {
            r.append("\n");
        }
        r.append(lines[i].as_str());
        proof {
            assert(all.take(i + 1).last() == lines@[i as int]@);
            if i == 0 {
                assert(all.take(1)[0] == lines@[0]@);
            }
        }
        i = i + 1;
    }
    proof {
        assert(all.take(i as int) =~= all);
    }
    r
}


/// The numbers of `ns` in decimal, with `, ` between each two.
pub open spec fn decimals_text(ns: Seq<u32>) -> Seq<char>
    decreases ns.len(),
{
    if ns.len() == 0 {
        Seq::<char>::empty()
    } else if ns.len() == 1 {
        decimal(ns[0] as nat)
    } else {
        decimals_text(ns.drop_last()) + ", "@ + decimal(ns.last() as nat)
    }
}

/// `{:?}` of a list of ids: `[1, 3]`.
pub open spec fn debug_ids(ns: Seq<u32>) -> Seq<char> {
    "["@ + decimals_text(ns) + "]"@
}

/// Appends the `{:?}` rendering of `ns` to `out`.
pub fn push_debug_ids(out: &mut String, ns: &Vec<u32>)
    ensures
        final(out)@ == old(out)@ + debug_ids(ns@),
{
    out.append("[");
    let ghost start = out@;
    let mut i: usize = 0;
    while i < ns.len()
        invariant
            i <= ns.len(),
            out@ == start + decimals_text(ns@.take(i as int)),
        decreases ns.len() - i,
    {
        proof {
            assert(ns@.take(i + 1).drop_last() =~= ns@.take(i as int));
            assert(ns@.take(i + 1).last() == ns@[i as int]);
        }
        if i > 0 {
            out.append(", ");
        } else {
            proof {
                assert(ns@.take(1)[0] == ns@[0]);
                assert(ns@.take(0) =~= Seq::<u32>::empty());
            }
        }
        push_decimal(out, ns[i] as u64);
        proof {
            if i == 0 {
                assert(out@ =~= start + decimals_text(ns@.take(1)));
            } else {
                assert(out@ =~= start + decimals_text(ns@.take(i + 1)));
            }
        }
        i = i + 1;
    }
    proof {
        assert(ns@.take(i as int) =~= ns@);
    }
    out.append("]");
    assert(out@ =~= old(out)@ + debug_ids(ns@));
}

} // verus!
