//! The text of the run report that lists the committed swaps: one line per swap in the
//! human-readable report, one JSON object per swap in the `--json` report.
use vstd::prelude::*;

use crate::emit::join;
use crate::engine::{swap_view, swaps_view, Swap, SwapView};

verus! {

/// `    <inst>: <old> -> <new>` and a newline.
pub open spec fn change_line(m: SwapView) -> Seq<char> {
    "    "@ + m.0 + ": "@ + m.1 + " -> "@ + m.2 + "\n"@
}

/// The lines of the swaps, in order.
pub open spec fn change_lines(ms: Seq<SwapView>) -> Seq<char>
    decreases ms.len(),
{
    if ms.len() == 0 {
        Seq::empty()
    } else {
        change_lines(ms.drop_last()) + change_line(ms.last())
    }
}

/// The lowercase hexadecimal digit of `d` (`0 <= d < 16`).
pub open spec fn hex_digit(d: int) -> char {
    "0123456789abcdef"@[d]
}

/// One character inside a JSON string: `"` and `\` escaped with a backslash, the control
/// characters below U+0020 as `\u00XX`, every other character as it is.
pub open spec fn json_char(c: char) -> Seq<char> {
    if c == '"' {
        "\\\""@
    } else if c == '\\' {
        "\\\\"@
    } else if (c as u32) < 0x20 {
        "\\u00"@ + seq![hex_digit(((c as u32) / 16) as int), hex_digit(((c as u32) % 16) as int)]
    } else {
        seq![c]
    }
}

/// `s` as the inside of a JSON string.
pub open spec fn json_escape(s: Seq<char>) -> Seq<char>
    decreases s.len(),
{
    if s.len() == 0 {
        Seq::empty()
    } else {
        json_escape(s.drop_last()) + json_char(s.last())
    }
}

/// `{"inst":"<inst>","old":"<old>","new":"<new>"}`, each name escaped as a JSON string.
pub open spec fn change_json(m: SwapView) -> Seq<char> {
    "{\"inst\":\""@ + json_escape(m.0) + "\",\"old\":\""@ + json_escape(m.1) + "\",\"new\":\""@
        + json_escape(m.2) + "\"}"@
}

/// Appends `s`, escaped as the inside of a JSON string, to `out`.
pub fn push_json_escaped(out: &mut String, s: &str)
    ensures
        final(out)@ == old(out)@ + json_escape(s@),
{
    let ghost start = out@;
    let cs = crate::text::chars_of(s);
    let hex = "0123456789abcdef";
    proof {
        reveal_strlit("0123456789abcdef");
    }
    let mut i: usize = 0;
    assert(s@.take(0) =~= Seq::<char>::empty());
    assert(out@ =~= start + json_escape(s@.take(0)));
    while i < cs.len()
        invariant
            cs@ == s@,
            i <= cs.len(),
            hex@ == "0123456789abcdef"@,
            hex@.len() == 16,
            out@ == start + json_escape(s@.take(i as int)),
        decreases cs.len() - i,
    {
        let c = cs[i];
        let ghost before = out@;
        if c == '"' {
            out.append("\\\"");
        } else if c == '\\' {
            out.append("\\\\");
        } else if (c as u32) < 0x20 {
            let code = c as u32;
            let hi = (code / 16) as usize;
            let lo = (code % 16) as usize;
            out.append("\\u00");
            out.append(hex.substring_char(hi, hi + 1));
            out.append(hex.substring_char(lo, lo + 1));
            proof {
                assert(hex@.subrange(hi as int, hi + 1) =~= seq![hex_digit(((c as u32) / 16) as int)]);
                assert(hex@.subrange(lo as int, lo + 1) =~= seq![hex_digit(((c as u32) % 16) as int)]);
            }
        } else {
            out.append(s.substring_char(i, i + 1));
            assert(s@.subrange(i as int, i + 1) =~= seq![c]);
        }
        proof {
            assert(out@ =~= before + json_char(c));
            assert(s@.take(i + 1).drop_last() =~= s@.take(i as int));
            assert(s@.take(i + 1).last() == c);
        }
        i = i + 1;
    }
    assert(s@.take(cs.len() as int) =~= s@);
}

/// The JSON objects of the swaps, comma-separated (the inside of the `changed` array).
pub open spec fn changes_json(ms: Seq<SwapView>) -> Seq<char> {
    join(ms.map_values(|m: SwapView| change_json(m)), ","@)
}

/// The report lines of the committed swaps.
pub fn change_report(changed: &Vec<Swap>) -> (s: String)
    ensures
        s@ == change_lines(swaps_view(changed@)),
{
    let ghost ms = swaps_view(changed@);
    let mut s = String::new();
    let mut k: usize = 0;
    assert(ms.take(0) =~= Seq::<SwapView>::empty());
    while k < changed.len()
        invariant
            k <= changed.len(),
            ms == swaps_view(changed@),
            s@ == change_lines(ms.take(k as int)),
        decreases changed.len() - k,
    {
        let m = &changed[k];
        s.append("    ");
        s.append(m.0.as_str());
        s.append(": ");
        s.append(m.1.as_str());
        s.append(" -> ");
        s.append(m.2.as_str());
        s.append("\n");
        proof {
            assert(ms.take(k + 1).drop_last() =~= ms.take(k as int));
            assert(ms.take(k + 1).last() == swap_view(*m));
        }
        k = k + 1;
    }
    assert(ms.take(changed.len() as int) =~= ms);
    s
}

/// The JSON objects of the committed swaps, comma-separated.
pub fn changes_json_text(changed: &Vec<Swap>) -> (s: String)
    ensures
        s@ == changes_json(swaps_view(changed@)),
{
    let ghost ms = swaps_view(changed@);
    let ghost js = ms.map_values(|m: SwapView| change_json(m));
    let mut s = String::new();
    let mut k: usize = 0;
    assert(js.take(0) =~= Seq::<Seq<char>>::empty());
    while k < changed.len()
        invariant
            k <= changed.len(),
            ms == swaps_view(changed@),
            js == ms.map_values(|m: SwapView| change_json(m)),
            s@ == join(js.take(k as int), ","@),
        decreases changed.len() - k,
    {
        let m = &changed[k];
        let ghost before = s@;
        if k > 0 {
            s.append(",");
        }
        let ghost mid = s@;
        s.append("{\"inst\":\"");
        push_json_escaped(&mut s, m.0.as_str());
        s.append("\",\"old\":\"");
        push_json_escaped(&mut s, m.1.as_str());
        s.append("\",\"new\":\"");
        push_json_escaped(&mut s, m.2.as_str());
        s.append("\"}");
        proof {
            assert(js[k as int] == change_json(swap_view(*m)));
            assert(s@ =~= mid + js[k as int]);
            assert(js.take(k + 1).drop_last() =~= js.take(k as int));
            assert(js.take(k + 1).last() == js[k as int]);
            if k == 0 {
                assert(js.take(1).len() == 1);
                assert(before =~= Seq::<char>::empty());
            }
        }
        k = k + 1;
    }
    assert(js.take(changed.len() as int) =~= js);
    s
}

} // verus!
