//! How directories are shown: view modes and the attention a row deserves.
use vstd::prelude::*;
use crate::text::{chars_eq, lowercase, split_chars, split_on, to_chars, to_lowercase, CharClass};

verus! {

#[derive(Clone, Copy, Debug, PartialEq, Eq, Structural)]
pub enum VisualizationMode {
    DirectoryList,
    BoxesGrid,
    Sunburst,
    Icicle,
    PackedBubbles,
    LanguageHeatmap,
    StackedBars,
    DepthHistogram,
    ExtensionDonut,
}

#[derive(Clone, Copy, Debug, PartialEq, Eq, Structural)]
pub enum AttentionLevel {
    TopTen,
    TopQuarter,
    TopHalf,
    Small,
    Empty,
    Vendor,
}

/// A path component that names vendored or generated code.
pub open spec fn is_vendor_part(part: Seq<char>) -> bool {
    ||| part == "target"@
    ||| part == "node_modules"@
    ||| part == "dist"@
    ||| part == "build"@
    ||| part == ".venv"@
}

/// Some '/'-separated part of the lower-cased path names vendored code.
pub open spec fn is_vendor_path(path: Seq<char>) -> bool {
    let parts = split_on(lowercase(path), CharClass::Exactly('/'));
    exists|i: int| 0 <= i < parts.len() && is_vendor_part(#[trigger] parts[i])
}

/// The attention level of the `rank`-th of `count` rows (ranks count from 1,
/// heaviest first): vendored paths first, then empty rows, then the top tenth,
/// quarter and half of the ranking.
pub open spec fn attention(path: Seq<char>, rank: u64, count: u64, metric_value: u64) -> AttentionLevel {
    if is_vendor_path(path) {
        AttentionLevel::Vendor
    } else if metric_value == 0 {
        AttentionLevel::Empty
    } else if 10 * rank <= count {
        AttentionLevel::TopTen
    } else if 4 * rank <= count {
        AttentionLevel::TopQuarter
    } else if 2 * rank <= count {
        AttentionLevel::TopHalf
    } else {
        AttentionLevel::Small
    }
}

/// Vendored or generated code is recognised by a '/'-separated component of
/// the lower-cased path: a path with a component "target", "node_modules",
/// "dist", "build" or ".venv" gets `Vendor` whatever its rank and value, and
/// a path with none of them never does.
pub proof fn lemma_vendor_components(path: Seq<char>, rank: u64, count: u64, metric_value: u64)
    ensures
        ({
            let parts = split_on(lowercase(path), CharClass::Exactly('/'));
            let named = exists|i: int|
                0 <= i < parts.len() && (#[trigger] parts[i] == "target"@ || parts[i] == "node_modules"@
                    || parts[i] == "dist"@ || parts[i] == "build"@ || parts[i] == ".venv"@);
            (attention(path, rank, count, metric_value) == AttentionLevel::Vendor) == named
        }),
{
    let parts = split_on(lowercase(path), CharClass::Exactly('/'));
    if is_vendor_path(path) {
        let i = choose|i: int| 0 <= i < parts.len() && is_vendor_part(#[trigger] parts[i]);
        assert(parts[i] == "target"@ || parts[i] == "node_modules"@ || parts[i] == "dist"@ || parts[i]
            == "build"@ || parts[i] == ".venv"@);
    }
    if exists|i: int|
        0 <= i < parts.len() && (#[trigger] parts[i] == "target"@ || parts[i] == "node_modules"@ || parts[i]
            == "dist"@ || parts[i] == "build"@ || parts[i] == ".venv"@) {
        let i = choose|i: int|
            0 <= i < parts.len() && (#[trigger] parts[i] == "target"@ || parts[i] == "node_modules"@
                || parts[i] == "dist"@ || parts[i] == "build"@ || parts[i] == ".venv"@);
        assert(is_vendor_part(parts[i]));
    }
}

/// Outside vendored paths: a row with nothing to measure is `Empty`; otherwise
/// the rank fraction rank / count decides, at most a tenth being `TopTen`, at
/// most a quarter `TopQuarter`, at most a half `TopHalf`, the rest `Small`.
/// A heavier rank (a smaller one) never gets less attention.
pub proof fn lemma_attention_by_rank(path: Seq<char>, rank: u64, count: u64, metric_value: u64, better: u64)
    requires
        !is_vendor_path(path),
        better <= rank,
    ensures
        metric_value == 0 ==> attention(path, rank, count, metric_value) == AttentionLevel::Empty,
        metric_value > 0 ==> (attention(path, rank, count, metric_value) == AttentionLevel::TopTen <==> rank
            * 10 <= count),
        metric_value > 0 && rank * 10 > count ==> (attention(path, rank, count, metric_value)
            == AttentionLevel::TopQuarter <==> rank * 4 <= count),
        metric_value > 0 && rank * 4 > count ==> (attention(path, rank, count, metric_value)
            == AttentionLevel::TopHalf <==> rank * 2 <= count),
        metric_value > 0 && rank * 2 > count ==> attention(path, rank, count, metric_value)
            == AttentionLevel::Small,
        metric_value > 0 && attention(path, rank, count, metric_value) != AttentionLevel::Small
            ==> attention(path, better, count, metric_value) != AttentionLevel::Small,
        metric_value > 0 && attention(path, rank, count, metric_value) == AttentionLevel::TopTen
            ==> attention(path, better, count, metric_value) == AttentionLevel::TopTen,
{
}

fn literal_eq(part: &Vec<char>, literal: &str) -> (r: bool)
    ensures
        r == (part@ == literal@),
{
    let l = to_chars(literal);
    chars_eq(part, &l)
}

fn vendor_part_exec(part: &Vec<char>) -> (r: bool)
    ensures
        r == is_vendor_part(part@),
{
    literal_eq(part, "target") || literal_eq(part, "node_modules") || literal_eq(part, "dist")
        || literal_eq(part, "build") || literal_eq(part, ".venv")
}

pub fn is_vendor(path: &str) -> (r: bool)
    ensures
        r == is_vendor_path(path@),
{
    let lower = to_lowercase(path);
    let chars = to_chars(lower.as_str());
    let parts = split_chars(&chars, CharClass::Exactly('/'));
    assert(chars@ == lowercase(path@));
    let mut i: usize = 0;
    while i < parts.len()
        invariant
            i <= parts.len(),
            crate::text::texts(parts@) == split_on(lowercase(path@), CharClass::Exactly('/')),
            forall|j: int| 0 <= j < i ==> !is_vendor_part(#[trigger] parts@[j]@),
        decreases parts.len() - i,
    {
        if vendor_part_exec(&parts[i]) {
            assert(crate::text::texts(parts@)[i as int] == parts@[i as int]@);
            assert(is_vendor_part(split_on(lowercase(path@), CharClass::Exactly('/'))[i as int]));
            return true;
        }
        i = i + 1;
    }
    assert forall|j: int| 0 <= j < parts.len() implies !is_vendor_part(
        #[trigger] split_on(lowercase(path@), CharClass::Exactly('/'))[j],
    ) by {
        assert(crate::text::texts(parts@)[j] == parts@[j]@);
    }
    false
}

/// The attention level of the `rank`-th of `count` rows; a rank fraction
/// `rank / count` is compared with one tenth, a quarter and a half exactly.
pub fn attention_for(path: &str, rank: u64, count: u64, metric_value: u64) -> (r: AttentionLevel)
    ensures
        r == attention(path@, rank, count, metric_value),
{
    if is_vendor(path) {
        return AttentionLevel::Vendor;
    }
    if metric_value == 0 {
        return AttentionLevel::Empty;
    }
    if rank <= count / 10 {
        AttentionLevel::TopTen
    } else if rank <= count / 4 {
        AttentionLevel::TopQuarter
    } else if rank <= count / 2 {
        AttentionLevel::TopHalf
    } else {
        AttentionLevel::Small
    }
}

/// The color that marks an attention level.
pub open spec fn attention_color_text(attention: AttentionLevel) -> Seq<char> {
    match attention {
        AttentionLevel::TopTen => "#cf222e"@,
        AttentionLevel::TopQuarter => "#bc4c00"@,
        AttentionLevel::TopHalf => "#bf8700"@,
        AttentionLevel::Small => "#0969da"@,
        AttentionLevel::Empty => "#8c959f"@,
        AttentionLevel::Vendor => "#8250df"@,
    }
}

pub fn attention_color(attention: AttentionLevel) -> (r: &'static str)
    ensures
        r@ == attention_color_text(attention),
{
    match attention {
        AttentionLevel::TopTen => "#cf222e",
        AttentionLevel::TopQuarter => "#bc4c00",
        AttentionLevel::TopHalf => "#bf8700",
        AttentionLevel::Small => "#0969da",
        AttentionLevel::Empty => "#8c959f",
        AttentionLevel::Vendor => "#8250df",
    }
}

} // verus!
