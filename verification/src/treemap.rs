//! The integer side of the treemap: which children are drawn and how their
//! weights are split between the two halves of a rectangle.
use vstd::prelude::*;
use vstd::string::{StrSliceExecFns, StringExecFns, StringSliceAdditionalSpecFns};
use crate::format::{decimal, decimal_string};
use crate::language::FALLBACK_LANGUAGE_COLOR;
use crate::sort::{lemma_sum_by_sort_desc, payloads, sort_by_weight_desc, sort_desc, sum_by};
use crate::text::push_char;
use crate::tree::{DirectoryNode, SizeMetric};

verus! {

/// Sum of the weights.
pub open spec fn weight_sum(values: Seq<u64>) -> int
    decreases values.len(),
{
    if values.len() == 0 {
        0
    } else {
        weight_sum(values.drop_last()) + values.last()
    }
}

/// How far splitting after the first `i` weights is from an even split.
pub open spec fn split_delta(values: Seq<u64>, total: int, i: int) -> int {
    let first = weight_sum(values.take(i));
    let d = first - (total - first);
    if d < 0 {
        -d
    } else {
        d
    }
}

proof fn lemma_weight_sum_take(values: Seq<u64>, i: int)
    requires
        0 <= i < values.len(),
    ensures
        weight_sum(values.take(i + 1)) == weight_sum(values.take(i)) + values[i],
        0 <= weight_sum(values.take(i)),
{
    assert(values.take(i + 1).drop_last() =~= values.take(i));
    lemma_weight_sum_nonneg(values.take(i));
}

proof fn lemma_weight_sum_nonneg(values: Seq<u64>)
    ensures
        0 <= weight_sum(values),
    decreases values.len(),
{
    if values.len() > 0 {
        lemma_weight_sum_nonneg(values.drop_last());
    }
}

proof fn lemma_weight_sum_prefix_le(values: Seq<u64>, i: int)
    requires
        0 <= i <= values.len(),
    ensures
        weight_sum(values.take(i)) <= weight_sum(values),
    decreases values.len() - i,
{
    if i < values.len() {
        lemma_weight_sum_take(values, i);
        lemma_weight_sum_prefix_le(values, i + 1);
    } else {
        assert(values.take(i) =~= values);
    }
}

/// The split point: after how many of the weights (at least one, leaving at
/// least one) the first part comes closest to half of `total`; among equally
/// close points, the last.
pub fn split_near_half(values: &Vec<u64>, total: u64) -> (r: usize)
    requires
        values.len() >= 2,
        weight_sum(values@) == total,
    ensures
        1 <= r <= values.len() - 1,
        forall|i: int|
            1 <= i <= values.len() - 1 ==> split_delta(values@, total as int, r as int) <= split_delta(
                values@,
                total as int,
                i,
            ),
        forall|i: int|
            r < i <= values.len() - 1 ==> split_delta(values@, total as int, r as int) < split_delta(
                values@,
                total as int,
                i,
            ),
{
    let n = values.len();
    let mut sum: u64 = 0;
    let mut best_index: usize = 1;
    let mut best_delta: u64 = total;
    let mut index: usize = 0;
    while index < n - 1
        invariant
            n == values.len(),
            n >= 2,
            weight_sum(values@) == total,
            index <= n - 1,
            sum as int == weight_sum(values@.take(index as int)),
            1 <= best_index <= n - 1,
            index == 0 ==> best_index == 1 && best_delta == total,
            index > 0 ==> best_index <= index && best_delta as int == split_delta(
                values@,
                total as int,
                best_index as int,
            ),
            forall|i: int|
                1 <= i <= index ==> best_delta <= split_delta(values@, total as int, i),
            forall|i: int|
                best_index < i <= index ==> best_delta < split_delta(values@, total as int, i),
        decreases n - 1 - index,
    {
        proof {
            lemma_weight_sum_take(values@, index as int);
            lemma_weight_sum_prefix_le(values@, index + 1);
        }
        sum = sum + values[index];
        let rest = total - sum;
        let target_delta: u64 = if sum >= rest {
            sum - rest
        } else {
            rest - sum
        };
        assert(target_delta as int == split_delta(values@, total as int, index + 1));
        if target_delta <= best_delta {
            best_delta = target_delta;
            best_index = index + 1;
        }
        index = index + 1;
    }
    best_index
}

// ---------------------------------------------------------------------------
// Colors keyed by path
// ---------------------------------------------------------------------------

/// The hash that varies a color per path: starting from 0, for each UTF-8 byte
/// of the key, multiply by 16777619 (wrapping) and xor the byte in.
pub open spec fn key_hash(bytes: Seq<u8>) -> u32
    decreases bytes.len(),
{
    if bytes.len() == 0 {
        0
    } else {
        vstd::wrapping::u32_specs::wrapping_mul(key_hash(bytes.drop_last()), 16777619) ^ (
        bytes.last() as u32)
    }
}

pub fn color_hash(key: &str) -> (h: u32)
    ensures
        h == key_hash(key.spec_bytes()),
{
    let bytes = key.as_bytes();
    let mut h: u32 = 0;
    let mut i: usize = 0;
    assert(bytes@.take(0) =~= Seq::<u8>::empty());
    while i < bytes.len()
        invariant
            i <= bytes.len(),
            h == key_hash(bytes@.take(i as int)),
        decreases bytes.len() - i,
    {
        assert(bytes@.take(i + 1).drop_last() =~= bytes@.take(i as int));
        h = h.wrapping_mul(16777619) ^ (bytes[i] as u32);
        i = i + 1;
    }
    assert(bytes@.take(bytes.len() as int) =~= bytes@);
    h
}

// ---------------------------------------------------------------------------
// Directory chains
// ---------------------------------------------------------------------------

/// A directory whose only child holds exactly the same counts is shown as
/// that child: the end of the chain of such single children.
pub open spec fn chain_end(n: DirectoryNode) -> DirectoryNode
    decreases n,
{
    if n.children@.len() == 1 && n.totals == n.children@[0].totals {
        chain_end(n.children@[0])
    } else {
        n
    }
}

/// The names along that chain joined by '/'.
pub open spec fn chain_label(n: DirectoryNode) -> Seq<char>
    decreases n,
{
    if n.children@.len() == 1 && n.totals == n.children@[0].totals {
        n.name@ + seq!['/'] + chain_label(n.children@[0])
    } else {
        n.name@
    }
}

/// Showing a directory as the end of its chain keeps its counts.
pub proof fn lemma_chain_keeps_counts(n: DirectoryNode)
    ensures
        chain_end(n).totals == n.totals,
    decreases n,
{
    if n.children@.len() == 1 && n.totals == n.children@[0].totals {
        lemma_chain_keeps_counts(n.children@[0]);
    }
}

pub fn collapse_directory_chain(node: &DirectoryNode) -> (r: (&DirectoryNode, String))
    ensures
        *r.0 == chain_end(*node),
        r.1@ == chain_label(*node),
    decreases node,
{
    if node.children.len() == 1 && node.totals == node.children[0].totals {
        let (end, rest) = collapse_directory_chain(&node.children[0]);
        let mut label = node.name.clone();
        push_char(&mut label, '/');
        label.append(rest.as_str());
        (end, label)
    } else {
        (node, node.name.clone())
    }
}

// ---------------------------------------------------------------------------
// Items of a treemap
// ---------------------------------------------------------------------------

/// One box of a treemap before it is placed: what it shows and its weight.
/// A box with `varied` set takes a shade of `color` keyed by its path.
#[derive(Clone, Debug)]
pub struct TreemapItem {
    pub id: String,
    pub label: String,
    pub value: u64,
    pub color: String,
    pub varied: bool,
    pub path: String,
    pub tooltip: String,
}

pub struct TreemapItemView {
    pub id: Seq<char>,
    pub label: Seq<char>,
    pub value: u64,
    pub color: Seq<char>,
    pub varied: bool,
    pub path: Seq<char>,
    pub tooltip: Seq<char>,
}

impl View for TreemapItem {
    type V = TreemapItemView;

    open spec fn view(&self) -> TreemapItemView {
        TreemapItemView {
            id: self.id@,
            label: self.label@,
            value: self.value,
            color: self.color@,
            varied: self.varied,
            path: self.path@,
            tooltip: self.tooltip@,
        }
    }
}

/// The hover text of a directory's box.
pub open spec fn tooltip_text(d: DirectoryNode, value: u64) -> Seq<char> {
    d.name@ + "\n"@ + d.path@ + "\nValue: "@ + decimal(value as nat) + "\nFiles: "@ + decimal(
        d.totals.files as nat,
    ) + "\nTotal LOC: "@ + decimal(d.totals.total_loc as nat) + "\nCode: "@ + decimal(
        d.totals.code_loc as nat,
    ) + "\nComments: "@ + decimal(d.totals.comment_loc as nat) + "\nBlanks: "@ + decimal(
        d.totals.blank_loc as nat,
    )
}

/// The color of a directory's box before shading: its heaviest language's.
pub open spec fn base_color(d: DirectoryNode) -> Seq<char> {
    if d.languages@.len() > 0 && d.languages@[0].color is Some {
        d.languages@[0].color->0@
    } else {
        FALLBACK_LANGUAGE_COLOR@
    }
}

/// The box of a child directory, shown as the end of its chain.
pub open spec fn child_item(c: DirectoryNode, metric: SizeMetric) -> TreemapItemView {
    let d = chain_end(c);
    let value = metric.spec_value(&d.totals);
    TreemapItemView {
        id: d.path@,
        label: chain_label(c),
        value,
        color: base_color(d),
        varied: true,
        path: d.path@,
        tooltip: tooltip_text(d, value),
    }
}

/// The box that stands for the children left out.
pub open spec fn other_item(hidden: u64, other_color: Seq<char>) -> TreemapItemView {
    TreemapItemView {
        id: "other"@,
        label: "Other"@,
        value: hidden,
        color: other_color,
        varied: false,
        path: Seq::empty(),
        tooltip: "Other\nValue: "@ + decimal(hidden as nat),
    }
}

/// Each child's position, with its weight.
pub open spec fn weighted_positions(node: DirectoryNode, metric: SizeMetric) -> Seq<(u64, usize)> {
    Seq::new(
        node.children@.len(),
        |i: int| (metric.spec_value(&node.children@[i].totals), i as usize),
    )
}

/// Positions of the children, heaviest first, ties in their given order.
pub open spec fn heaviest_first(node: DirectoryNode, metric: SizeMetric) -> Seq<usize> {
    sort_desc(weighted_positions(node, metric)).map_values(|x: (u64, usize)| x.1)
}

/// How many children get a box of their own.
pub open spec fn visible_count(node: DirectoryNode, max_items: usize) -> int {
    let m = if max_items < 1 {
        1
    } else {
        max_items as int
    };
    if m < node.children@.len() {
        m
    } else {
        node.children@.len() as int
    }
}

/// Weights of the children, in their given order.
pub open spec fn child_weights(node: DirectoryNode, metric: SizeMetric) -> Seq<u64> {
    node.children@.map_values(|c: DirectoryNode| metric.spec_value(&c.totals))
}

/// Weights of the children, heaviest first.
pub open spec fn sorted_weights(node: DirectoryNode, metric: SizeMetric) -> Seq<u64> {
    sort_desc(weighted_positions(node, metric)).map_values(|x: (u64, usize)| x.0)
}

/// The weight left to the "Other" box: that of the children left out, those
/// past the first `visible_count` in heaviest-first order.
pub open spec fn hidden_total(node: DirectoryNode, metric: SizeMetric, max_items: usize) -> int {
    weight_sum(sorted_weights(node, metric).skip(visible_count(node, max_items)))
}

proof fn lemma_weight_sum_first<T>(s: Seq<(u64, T)>)
    ensures
        weight_sum(s.map_values(|x: (u64, T)| x.0)) == sum_by(s, |x: (u64, T)| x.0 as int),
    decreases s.len(),
{
    if s.len() > 0 {
        lemma_weight_sum_first(s.drop_last());
        assert(s.map_values(|x: (u64, T)| x.0).drop_last() =~= s.drop_last().map_values(
            |x: (u64, T)| x.0,
        ));
    }
}

/// Listing the children heaviest first keeps their total weight.
proof fn lemma_sorted_weights_sum(node: DirectoryNode, metric: SizeMetric)
    ensures
        weight_sum(sorted_weights(node, metric)) == weight_sum(child_weights(node, metric)),
        sorted_weights(node, metric).len() == node.children@.len(),
{
    let wp = weighted_positions(node, metric);
    lemma_weight_sum_first(sort_desc(wp));
    lemma_weight_sum_first(wp);
    lemma_sum_by_sort_desc(wp, |x: (u64, usize)| x.0 as int);
    assert(wp.map_values(|x: (u64, usize)| x.0) =~= child_weights(node, metric));
    crate::sort::lemma_sort_desc_permutes(wp);
    assert(sort_desc(wp).len() == wp.len()) by {
        assert(sort_desc(wp).to_multiset().len() == sort_desc(wp).len()) by {
            sort_desc(wp).to_multiset_ensures();
        }
        wp.to_multiset_ensures();
    }
}

/// The children that get a box of their own number the smaller of the limit
/// (at least one) and the number of children; when the limit covers every
/// child, each child gets its own box and there is no "Other" weight.
pub proof fn lemma_box_count(node: DirectoryNode, metric: SizeMetric, max_items: usize)
    ensures
        ({
            let n = node.children@.len() as int;
            let limit = if max_items == 0 { 1int } else { max_items as int };
            &&& visible_count(node, max_items) <= n
            &&& visible_count(node, max_items) <= limit
            &&& (visible_count(node, max_items) == n || visible_count(node, max_items) == limit)
            &&& (max_items as int >= n ==> visible_count(node, max_items) == n && hidden_total(
                node,
                metric,
                max_items,
            ) == 0)
        }),
{
    lemma_sorted_weights_sum(node, metric);
    let n = node.children@.len() as int;
    if max_items as int >= n && visible_count(node, max_items) == n {
        assert(sorted_weights(node, metric).skip(n) =~= Seq::<u64>::empty());
    }
}

proof fn lemma_sorted_weights_at(node: DirectoryNode, metric: SizeMetric)
    ensures
        sorted_weights(node, metric).len() == node.children@.len(),
        heaviest_first(node, metric).len() == node.children@.len(),
        forall|t: int|
            0 <= t < node.children@.len() ==> heaviest_first(node, metric)[t] < node.children@.len()
                && sorted_weights(node, metric)[t] == metric.spec_value(
                &node.children@[heaviest_first(node, metric)[t] as int].totals,
            ),
{
    lemma_sorted_weights_sum(node, metric);
    let wp = weighted_positions(node, metric);
    let n = node.children@.len();
    assert(node.children.len() == node.children@.len());
    let pred = |x: (u64, usize)| x.1 < n && x.0 == metric.spec_value(&node.children@[x.1 as int].totals);
    assert forall|t: int| 0 <= t < wp.len() implies pred(#[trigger] wp[t]) by {
        assert(wp[t].1 == t as usize);
    }
    crate::sort::lemma_sort_desc_keeps(wp, pred);
    assert forall|t: int| 0 <= t < n implies heaviest_first(node, metric)[t] < n && sorted_weights(node, metric)[t]
        == metric.spec_value(&node.children@[heaviest_first(node, metric)[t] as int].totals) by {
        assert(pred(sort_desc(wp)[t]));
    }
}

/// The boxes are sized by the metric: the boxes of their own (each child
/// shown as the end of its chain) and the "Other" weight add up to the
/// weight of all the children.
pub proof fn lemma_boxes_add_up(node: DirectoryNode, metric: SizeMetric, max_items: usize)
    ensures
        weight_sum(
            Seq::new(
                visible_count(node, max_items) as nat,
                |j: int| child_item(node.children@[heaviest_first(node, metric)[j] as int], metric).value,
            ),
        ) + hidden_total(node, metric, max_items) == weight_sum(child_weights(node, metric)),
{
    lemma_sorted_weights_at(node, metric);
    lemma_sorted_weights_sum(node, metric);
    let v = visible_count(node, max_items);
    let sw = sorted_weights(node, metric);
    let boxes = Seq::new(
        v as nat,
        |j: int| child_item(node.children@[heaviest_first(node, metric)[j] as int], metric).value,
    );
    assert forall|j: int| 0 <= j < v implies boxes[j] == sw[j] by {
        lemma_chain_keeps_counts(node.children@[heaviest_first(node, metric)[j] as int]);
    }
    assert(boxes =~= sw.take(v));
    lemma_weight_sum_split(sw, v);
}

fn directory_tooltip_text(d: &DirectoryNode, value: u64) -> (t: String)
    ensures
        t@ == tooltip_text(*d, value),
{
    let mut t = d.name.clone();
    t.append("\n");
    t.append(d.path.as_str());
    t.append("\nValue: ");
    t.append(decimal_string(value).as_str());
    t.append("\nFiles: ");
    t.append(decimal_string(d.totals.files).as_str());
    t.append("\nTotal LOC: ");
    t.append(decimal_string(d.totals.total_loc).as_str());
    t.append("\nCode: ");
    t.append(decimal_string(d.totals.code_loc).as_str());
    t.append("\nComments: ");
    t.append(decimal_string(d.totals.comment_loc).as_str());
    t.append("\nBlanks: ");
    t.append(decimal_string(d.totals.blank_loc).as_str());
    t
}

/// Whether the weights of all children add up within `u64`.
pub fn child_weights_fit(node: &DirectoryNode, metric: SizeMetric) -> (r: bool)
    ensures
        r == (weight_sum(child_weights(*node, metric)) <= u64::MAX),
{
    let ghost ws = child_weights(*node, metric);
    let mut sum: u64 = 0;
    let mut i: usize = 0;
    while i < node.children.len()
        invariant
            i <= node.children.len(),
            ws == child_weights(*node, metric),
            sum as int == weight_sum(ws.take(i as int)),
        decreases node.children.len() - i,
    {
        proof {
            lemma_weight_sum_take(ws, i as int);
        }
        let w = metric.value(&node.children[i].totals);
        if w > u64::MAX - sum {
            proof {
                lemma_weight_sum_prefix_le(ws, i + 1);
            }
            return false;
        }
        sum = sum + w;
        i = i + 1;
    }
    assert(ws.take(node.children.len() as int) =~= ws);
    true
}

/// The boxes of a directory's treemap: its heaviest children, each shown as
/// the end of its chain of single same-sized children, then an "Other" box for
/// the weight of the children left out when that is above zero.
pub fn treemap_items(node: &DirectoryNode, metric: SizeMetric, max_items: usize, other_color: &str) -> (r: Vec<TreemapItem>)
    requires
        weight_sum(child_weights(*node, metric)) <= u64::MAX,
    ensures
        r@.len() == visible_count(*node, max_items) + if hidden_total(*node, metric, max_items) > 0 {
            1int
        } else {
            0int
        },
        forall|j: int|
            0 <= j < visible_count(*node, max_items) ==> (#[trigger] r@[j])@ == child_item(
                node.children@[heaviest_first(*node, metric)[j] as int],
                metric,
            ),
        hidden_total(*node, metric, max_items) > 0 ==> r@[visible_count(*node, max_items)]@
            == other_item(hidden_total(*node, metric, max_items) as u64, other_color@),
{
    let n = node.children.len();
    let order = children_heaviest_first(node, metric);
    let limit: usize = if max_items < 1 {
        1
    } else {
        max_items
    };
    let visible: usize = if limit < n {
        limit
    } else {
        n
    };

    let ghost sw = sorted_weights(*node, metric);
    proof {
        lemma_sorted_weights_sum(*node, metric);
    }
    let mut hidden: u64 = 0;
    let mut k: usize = visible;
    proof {
        lemma_weight_sum_prefix_le(sw, visible as int);
        lemma_weight_sum_split(sw, visible as int);
        lemma_weight_sum_nonneg(sw.take(visible as int));
    }
    assert(sw.skip(visible as int).take(0) =~= Seq::<u64>::empty());
    while k < n
        invariant
            n == node.children.len(),
            visible <= k <= n,
            sw == sorted_weights(*node, metric),
            sw.len() == n,
            order@ == heaviest_first(*node, metric),
            order@.len() == n,
            forall|t: int| 0 <= t < n ==> order@[t] < n,
            forall|t: int|
                0 <= t < n ==> sw[t] == metric.spec_value(&node.children@[order@[t] as int].totals),
            weight_sum(sw) <= u64::MAX,
            weight_sum(sw) == weight_sum(sw.take(visible as int)) + weight_sum(sw.skip(visible as int)),
            0 <= weight_sum(sw.take(visible as int)),
            hidden as int == weight_sum(sw.skip(visible as int).take(k - visible)),
        decreases n - k,
    {
        let ghost tail = sw.skip(visible as int);
        proof {
            lemma_weight_sum_take(tail, k - visible);
            lemma_weight_sum_prefix_le(tail, k + 1 - visible);
            assert(tail[k - visible] == sw[k as int]);
        }
        hidden = hidden + metric.value(&node.children[order[k]].totals);
        k = k + 1;
    }
    assert(sw.skip(visible as int).take(n - visible) =~= sw.skip(visible as int));

    let mut items: Vec<TreemapItem> = Vec::new();
    let mut j: usize = 0;
    while j < visible
        invariant
            visible <= n == node.children.len(),
            order@ == heaviest_first(*node, metric),
            order@.len() == n,
            forall|t: int| 0 <= t < n ==> order@[t] < n,
            items.len() == j,
            j <= visible,
            forall|t: int|
                0 <= t < j ==> (#[trigger] items@[t])@ == child_item(
                    node.children@[order@[t] as int],
                    metric,
                ),
        decreases visible - j,
    {
        let child = &node.children[order[j]];
        let (end, label) = collapse_directory_chain(child);
        let value = metric.value(&end.totals);
        let color = if end.languages.len() > 0 {
            match &end.languages[0].color {
                Some(c) => c.clone(),
                None => FALLBACK_LANGUAGE_COLOR.to_owned(),
            }
        } else {
            FALLBACK_LANGUAGE_COLOR.to_owned()
        };
        let item = TreemapItem {
            id: end.path.clone(),
            label,
            value,
            color,
            varied: true,
            path: end.path.clone(),
            tooltip: directory_tooltip_text(end, value),
        };
        items.push(item);
        j = j + 1;
    }
    if hidden > 0 {
        let mut tooltip = String::new();
        tooltip.append("Other\nValue: ");
        tooltip.append(decimal_string(hidden).as_str());
        items.push(
            TreemapItem {
                id: "other".to_owned(),
                label: "Other".to_owned(),
                value: hidden,
                color: other_color.to_owned(),
                varied: false,
                path: String::new(),
                tooltip,
            },
        );
    }
    items
}

/// Positions of a directory's children, heaviest first, ties in their order.
pub fn children_heaviest_first(node: &DirectoryNode, metric: SizeMetric) -> (order: Vec<usize>)
    ensures
        order@ == heaviest_first(*node, metric),
        order@.len() == node.children@.len(),
        forall|t: int| 0 <= t < order@.len() ==> order@[t] < node.children@.len(),
        forall|t: int|
            0 <= t < order@.len() ==> sorted_weights(*node, metric)[t] == metric.spec_value(
                &node.children@[order@[t] as int].totals,
            ),
{
    let n = node.children.len();
    let mut weighted: Vec<(u64, usize)> = Vec::new();
    let mut i: usize = 0;
    while i < n
        invariant
            n == node.children.len(),
            i <= n,
            weighted@ == weighted_positions(*node, metric).take(i as int),
        decreases n - i,
    {
        weighted.push((metric.value(&node.children[i].totals), i));
        i = i + 1;
        assert(weighted@ =~= weighted_positions(*node, metric).take(i as int));
    }
    assert(weighted_positions(*node, metric).take(n as int) =~= weighted_positions(*node, metric));
    let ghost wp = weighted@;
    let sorted = sort_by_weight_desc(weighted);
    let order = payloads(sorted);
    proof {
        crate::sort::lemma_sort_desc_sorted(wp);
        let pred = |x: (u64, usize)| x.1 < n && x.0 == metric.spec_value(&node.children@[x.1 as int].totals);
        assert forall|t: int| 0 <= t < wp.len() implies pred(#[trigger] wp[t]) by {
            assert(wp[t].1 == t as usize);
        }
        crate::sort::lemma_sort_desc_keeps(wp, pred);
        assert forall|t: int| 0 <= t < n implies order@[t] < n && sorted_weights(*node, metric)[t]
            == metric.spec_value(&node.children@[order@[t] as int].totals) by {
            assert(order@[t] == sort_desc(wp)[t].1);
            assert(pred(sort_desc(wp)[t]));
        }
    }
    order
}

proof fn lemma_weight_sum_split(values: Seq<u64>, i: int)
    requires
        0 <= i <= values.len(),
    ensures
        weight_sum(values) == weight_sum(values.take(i)) + weight_sum(values.skip(i)),
    decreases values.len(),
{
    if i < values.len() {
        lemma_weight_sum_split(values.drop_last(), i);
        assert(values.drop_last().take(i) =~= values.take(i));
        assert(values.drop_last().skip(i) =~= values.skip(i).drop_last());
    } else {
        assert(values.take(i) =~= values);
        assert(values.skip(i) =~= Seq::<u64>::empty());
    }
}

} // verus!
