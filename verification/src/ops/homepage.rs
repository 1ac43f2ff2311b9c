//! The front page is a consequence of the fleet, not an administration: the
//! orchestrator already knows every stack and every route it wrote, so the
//! page is rendered rather than maintained, and joined with a hand-written
//! overlay (icons, descriptions, grouping) on `href`.

use vstd::prelude::*;
use vstd::string::*;
use vstd::utf8::encode_utf8;
use crate::order::{insert_by, lemma_insert_at, sort_by};
use crate::text::{str_le, str_le_exec,
    contains, ends_with, lines, lines_of, split_char, split_on, starts_with, str_contains,
    str_ends_with, str_eq, str_starts_with, str_strip_prefix, str_trim_end_char,
    str_trim_start_char, string_views, strip_prefix, trim, trim_end_char, trim_start,
    trim_start_char, trimmed, trimmed_start, views,
};

verus! {

/// One entry: the app it belongs to and the hostname its route matches.
#[derive(Debug, Clone, PartialEq, Eq)]
pub struct Entry {
    pub app: String,
    pub host: String,
}

pub open spec fn entries_view(v: Seq<Entry>) -> Seq<(Seq<char>, Seq<char>)> {
    v.map_values(|e: Entry| (e.app@, e.host@))
}

/// The bytes of leading whitespace of a line.
pub open spec fn indent_of(l: Seq<char>) -> int {
    (encode_utf8(l).len() as usize) - (encode_utf8(trimmed_start(l)).len() as usize)
}

/// What one line of a route file does to the scan: `(entries, current
/// router)`. A four-space key with no space in it names a router; a `rule:`
/// line with a backquoted hostname under a named router is an entry.
pub open spec fn route_step(st: (Seq<(Seq<char>, Seq<char>)>, Seq<char>), l: Seq<char>) -> (Seq<(Seq<char>, Seq<char>)>, Seq<char>) {
    let (out, app) = st;
    let t = trimmed(l);
    if starts_with(t, "#"@) || t.len() == 0 {
        st
    } else if indent_of(l) == 4 && ends_with(t, ":"@) && !contains(t, " "@) {
        (out, trim_end_char(t, ':'))
    } else {
        match strip_prefix(t, "rule:"@) {
            Some(rest) => if split_on(rest, '`').len() > 1 && app.len() > 0 && contains(split_on(rest, '`')[1], "."@) {
                (out.push((app, split_on(rest, '`')[1])), app)
            } else {
                st
            },
            None => st,
        }
    }
}

pub open spec fn route_scan(ls: Seq<Seq<char>>) -> (Seq<(Seq<char>, Seq<char>)>, Seq<char>)
    decreases ls.len(),
{
    if ls.len() == 0 {
        (Seq::empty(), Seq::empty())
    } else {
        route_step(route_scan(ls.drop_last()), ls.last())
    }
}

/// `(router-name, hostname)` pairs out of a route fragment, by a line
/// scanner: these files are written from a template this program owns.
pub fn entries_from_route(content: &str) -> (r: Vec<Entry>)
    ensures
        entries_view(r@) == route_scan(lines_of(content@)).0,
{
    let ls = lines(content);
    let ghost lv = views(ls@);
    let mut out: Vec<Entry> = Vec::new();
    let mut app = String::new();
    let mut i: usize = 0;
    while i < ls.len()
        invariant
            i <= ls.len(),
            lv == views(ls@),
            route_scan(lv.take(i as int)) == (entries_view(out@), app@),
        decreases ls.len() - i,
    {
        proof {
            assert(lv.take(i + 1).drop_last() =~= lv.take(i as int));
            assert(lv.take(i + 1).last() == ls@[i as int]@);
        }
        let line = ls[i];
        let t = trim(line);
        if str_starts_with(t, "#") || t.unicode_len() == 0 {
            i += 1;
            continue;
        }
        let ts = trim_start(line);
        let whole = line.len();
        let rest_len = ts.len();
        let four = rest_len <= whole && whole - rest_len == 4;
        if four && str_ends_with(t, ":") && !str_contains(t, " ") {
            app = String::from_str(str_trim_end_char(t, ':'));
            i += 1;
            continue;
        }
        if let Some(rest) = str_strip_prefix(t, "rule:") {
            let parts = split_char(rest, '`');
            if parts.len() > 1 {
                proof {
                    assert(views(parts@)[1] == parts@[1]@);
                }
                let h = parts[1];
                if app.unicode_len() > 0 && str_contains(h, ".") {
                    let ghost before = entries_view(out@);
                    out.push(Entry { app: app.clone(), host: String::from_str(h) });
                    proof {
                        assert(entries_view(out@) =~= before.push((app@, h@)));
                    }
                }
            }
        }
        i += 1;
    }
    proof {
        assert(lv.take(ls.len() as int) =~= lv);
    }
    out
}

/// What the overlay says about a group order and about services.
#[derive(Debug, Clone, Default, PartialEq, Eq)]
pub struct Overlay {
    /// Groups rendered first, in this order; anything else follows,
    /// alphabetically.
    pub group_order: Vec<String>,
    pub blocks: Vec<OverlayBlock>,
}

/// One overlay entry. `extra` is passed through verbatim, so a field this
/// orchestrator has never heard of still works.
#[derive(Debug, Clone, Default, PartialEq, Eq)]
pub struct OverlayBlock {
    pub href: String,
    pub group: Option<String>,
    pub name: Option<String>,
    pub extra: Vec<String>,
}

pub struct BlockView {
    pub href: Seq<char>,
    pub group: Option<Seq<char>>,
    pub name: Option<Seq<char>>,
    pub extra: Seq<Seq<char>>,
}

pub open spec fn opt_view(o: Option<String>) -> Option<Seq<char>> {
    match o {
        Some(s) => Some(s@),
        None => None,
    }
}

pub open spec fn block_view(b: OverlayBlock) -> BlockView {
    BlockView { href: b.href@, group: opt_view(b.group), name: opt_view(b.name), extra: string_views(b.extra@) }
}

pub open spec fn blocks_view(v: Seq<OverlayBlock>) -> Seq<BlockView> {
    v.map_values(|b: OverlayBlock| block_view(b))
}

/// A join key: trailing slashes are noise.
pub open spec fn href_key_of(h: Seq<char>) -> Seq<char> {
    trim_end_char(trimmed(h), '/')
}

pub fn href_key(h: &str) -> (r: String)
    ensures
        r@ == href_key_of(h@),
{
    String::from_str(str_trim_end_char(trim(h), '/'))
}

/// `[a, b, c]` as a list of names, blanks dropped.
pub open spec fn order_list(rest: Seq<char>) -> Seq<Seq<char>> {
    nonblank(split_on(trim_end_char(trim_start_char(trimmed(rest), '['), ']'), ',').map_values(|s: Seq<char>| trimmed(s)))
}

pub open spec fn nonblank(v: Seq<Seq<char>>) -> Seq<Seq<char>>
    decreases v.len(),
{
    if v.len() == 0 {
        v
    } else {
        nonblank(v.drop_last()) + if v.last().len() > 0 {
            seq![v.last()]
        } else {
            Seq::empty()
        }
    }
}

/// Where the overlay scan stands: the group order, the finished blocks, the
/// block being read, and whether its `extra: |` text is being read.
pub struct OvState {
    pub order: Seq<Seq<char>>,
    pub blocks: Seq<BlockView>,
    pub cur: Option<BlockView>,
    pub in_extra: bool,
}

pub open spec fn with_extra(cur: Option<BlockView>, l: Seq<char>) -> Option<BlockView> {
    match cur {
        Some(b) => Some(BlockView { extra: b.extra.push(l), ..b }),
        None => None,
    }
}

/// A line outside `extra` text.
pub open spec fn ov_key_step(st: OvState, line: Seq<char>) -> OvState {
    let t = trimmed(line);
    if t.len() == 0 || starts_with(t, "#"@) {
        st
    } else if strip_prefix(t, "group_order:"@) is Some {
        OvState { order: order_list(strip_prefix(t, "group_order:"@)->0), ..st }
    } else if strip_prefix(t, "- href:"@) is Some {
        OvState {
            blocks: match st.cur {
                Some(b) => st.blocks.push(b),
                None => st.blocks,
            },
            cur: Some(BlockView { href: href_key_of(strip_prefix(t, "- href:"@)->0), group: None, name: None, extra: Seq::empty() }),
            ..st
        }
    } else {
        match st.cur {
            None => st,
            Some(b) => if strip_prefix(t, "group:"@) is Some {
                OvState { cur: Some(BlockView { group: Some(trimmed(strip_prefix(t, "group:"@)->0)), ..b }), ..st }
            } else if strip_prefix(t, "name:"@) is Some {
                OvState { cur: Some(BlockView { name: Some(trimmed(strip_prefix(t, "name:"@)->0)), ..b }), ..st }
            } else if t == "extra: |"@ {
                OvState { in_extra: true, ..st }
            } else {
                st
            },
        }
    }
}

/// One line of the overlay. `extra` text continues while lines are blank
/// or indented four spaces deeper than the block's keys.
pub open spec fn ov_step(st: OvState, line: Seq<char>) -> OvState {
    if st.in_extra && trimmed(line).len() == 0 {
        OvState { cur: with_extra(st.cur, Seq::empty()), ..st }
    } else if st.in_extra && strip_prefix(line, "    "@) is Some {
        OvState { cur: with_extra(st.cur, strip_prefix(line, "    "@)->0), ..st }
    } else {
        ov_key_step(OvState { in_extra: false, ..st }, line)
    }
}

pub open spec fn ov_scan(ls: Seq<Seq<char>>) -> OvState
    decreases ls.len(),
{
    if ls.len() == 0 {
        OvState { order: Seq::empty(), blocks: Seq::empty(), cur: None, in_extra: false }
    } else {
        ov_step(ov_scan(ls.drop_last()), ls.last())
    }
}

/// Blocks without an href join nothing: dropped.
pub open spec fn with_href(v: Seq<BlockView>) -> Seq<BlockView>
    decreases v.len(),
{
    if v.len() == 0 {
        v
    } else {
        with_href(v.drop_last()) + if v.last().href.len() > 0 {
            seq![v.last()]
        } else {
            Seq::empty()
        }
    }
}

/// The overlay a text describes.
pub open spec fn overlay_of(text: Seq<char>) -> (Seq<Seq<char>>, Seq<BlockView>) {
    let st = ov_scan(lines_of(text));
    (st.order, with_href(match st.cur {
        Some(b) => st.blocks.push(b),
        None => st.blocks,
    }))
}

fn parse_order(rest: &str) -> (r: Vec<String>)
    ensures
        string_views(r@) == order_list(rest@),
{
    let inner = str_trim_end_char(str_trim_start_char(trim(rest), '['), ']');
    let parts = split_char(inner, ',');
    let ghost tv = views(parts@).map_values(|s: Seq<char>| trimmed(s));
    let mut out: Vec<String> = Vec::new();
    let mut i: usize = 0;
    while i < parts.len()
        invariant
            i <= parts.len(),
            tv == views(parts@).map_values(|s: Seq<char>| trimmed(s)),
            string_views(out@) == nonblank(tv.take(i as int)),
        decreases parts.len() - i,
    {
        proof {
            assert(tv.take(i + 1).drop_last() =~= tv.take(i as int));
            assert(tv.take(i + 1).last() == trimmed(parts@[i as int]@));
        }
        let t = trim(parts[i]);
        if t.unicode_len() > 0 {
            let ghost before = string_views(out@);
            out.push(String::from_str(t));
            proof {
                assert(string_views(out@) =~= before.push(t@));
            }
        }
        i += 1;
    }
    proof {
        assert(tv.take(parts.len() as int) =~= tv);
    }
    out
}

pub open spec fn ov_state(order: Seq<String>, blocks: Seq<OverlayBlock>, cur: Option<OverlayBlock>, in_extra: bool) -> OvState {
    OvState { order: string_views(order), blocks: blocks_view(blocks), cur: cur_view(cur), in_extra }
}

pub open spec fn cur_view(c: Option<OverlayBlock>) -> Option<BlockView> {
    match c {
        Some(b) => Some(block_view(b)),
        None => None,
    }
}

fn push_extra(cur: &mut Option<OverlayBlock>, l: &str)
    ensures
        cur_view(*final(cur)) == with_extra(cur_view(*old(cur)), l@),
{
    match cur {
        Some(b) => {
            let ghost before = string_views(b.extra@);
            b.extra.push(String::from_str(l));
            proof {
                assert(string_views(b.extra@) =~= before.push(l@));
            }
        },
        None => {},
    }
}

fn key_line(
    t: &str,
    order: &mut Vec<String>,
    blocks: &mut Vec<OverlayBlock>,
    cur: &mut Option<OverlayBlock>,
    in_extra: &mut bool,
)
    requires
        !*old(in_extra),
    ensures
        ov_key_step(ov_state(old(order)@, old(blocks)@, *old(cur), false), t@) == ov_state(
            final(order)@,
            final(blocks)@,
            *final(cur),
            *final(in_extra),
        ),
{
    let tt = trim(t);
    proof {
        assert(trimmed(t@) == tt@);
    }
    if tt.unicode_len() == 0 || str_starts_with(tt, "#") {
        return;
    }
    if let Some(rest) = str_strip_prefix(tt, "group_order:") {
        *order = parse_order(rest);
        return;
    }
    if let Some(href) = str_strip_prefix(tt, "- href:") {
        let ghost bv = blocks_view(blocks@);
        let mut prev: Option<OverlayBlock> = None;
        std::mem::swap(&mut prev, cur);
        if let Some(b) = prev {
            blocks.push(b);
            proof {
                assert(blocks_view(blocks@) =~= bv.push(block_view(b)));
            }
        }
        let extra: Vec<String> = Vec::new();
        proof {
            assert(string_views(extra@) =~= Seq::<Seq<char>>::empty());
        }
        *cur = Some(OverlayBlock { href: href_key(href), group: None, name: None, extra });
        return;
    }
    match cur {
        None => {},
        Some(b) => {
            if let Some(v) = str_strip_prefix(tt, "group:") {
                b.group = Some(String::from_str(trim(v)));
            } else if let Some(v) = str_strip_prefix(tt, "name:") {
                b.name = Some(String::from_str(trim(v)));
            } else if str_eq(tt, "extra: |") {
                *in_extra = true;
            }
        },
    }
}

/// Read the overlay file, by a line scanner: its shape is one this
/// orchestrator documents.
pub fn parse_overlay(text: &str) -> (r: Overlay)
    ensures
        (string_views(r.group_order@), blocks_view(r.blocks@)) == overlay_of(text@),
{
    let ls = lines(text);
    let ghost lv = views(ls@);
    let mut order: Vec<String> = Vec::new();
    let mut blocks: Vec<OverlayBlock> = Vec::new();
    let mut cur: Option<OverlayBlock> = None;
    let mut in_extra = false;
    let mut i: usize = 0;
    proof {
        assert(string_views(order@) =~= Seq::<Seq<char>>::empty());
        assert(blocks_view(blocks@) =~= Seq::<BlockView>::empty());
    }
    while i < ls.len()
        invariant
            i <= ls.len(),
            lv == views(ls@),
            ov_scan(lv.take(i as int)) == ov_state(order@, blocks@, cur, in_extra),
        decreases ls.len() - i,
    {
        proof {
            assert(lv.take(i + 1).drop_last() =~= lv.take(i as int));
            assert(lv.take(i + 1).last() == ls@[i as int]@);
        }
        let line = ls[i];
        if in_extra && trim(line).unicode_len() == 0 {
            push_extra(&mut cur, "");
            proof {
                reveal_strlit("");
                assert(""@ =~= Seq::<char>::empty());
            }
            i += 1;
            continue;
        }
        if in_extra {
            if let Some(rest) = str_strip_prefix(line, "    ") {
                push_extra(&mut cur, rest);
                i += 1;
                continue;
            }
        }
        in_extra = false;
        key_line(line, &mut order, &mut blocks, &mut cur, &mut in_extra);
        i += 1;
    }
    proof {
        assert(lv.take(ls.len() as int) =~= lv);
    }
    let ghost bv = blocks_view(blocks@);
    if let Some(b) = cur {
        blocks.push(b);
        proof {
            assert(blocks_view(blocks@) =~= bv.push(block_view(b)));
        }
    }
    let ghost all = blocks_view(blocks@);
    let mut kept: Vec<OverlayBlock> = Vec::new();
    let mut rest = blocks;
    let ghost orig = rest@;
    let ghost mut k: int = 0;
    while rest.len() > 0
        invariant
            0 <= k <= orig.len(),
            k + rest@.len() == orig.len(),
            rest@ == orig.subrange(k, orig.len() as int),
            all == blocks_view(orig),
            blocks_view(kept@) == with_href(all.take(k)),
        decreases rest@.len(),
    {
        let b = rest.remove(0);
        proof {
            assert(all.take(k + 1).drop_last() =~= all.take(k));
            assert(b == orig[k]);
            assert(all.take(k + 1).last() == block_view(b));
        }
        if b.href.unicode_len() > 0 {
            let ghost before = blocks_view(kept@);
            kept.push(b);
            proof {
                assert(blocks_view(kept@) =~= before.push(block_view(b)));
            }
        } else {
            proof {
                assert(with_href(all.take(k + 1)) =~= with_href(all.take(k)));
            }
        }
        proof {
            k = k + 1;
        }
    }
    proof {
        assert(all.take(k) =~= all);
    }
    Overlay { group_order: order, blocks: kept }
}

// ── services.yaml ───────────────────────────────────────────────────────────

pub open spec fn yaml_header() -> Seq<char> {
    "# Generated by the homelab orchestrator — every stack that has a\n# gateway route appears here, joined on href with the overlay in\n# services-overlay.yml for icons, descriptions, widgets and\n# grouping. Edit the overlay or the stack's route file; edits here\n# are overwritten on the next deploy.\n#\n# T51: this file was 0 bytes until 2026-09-01, so the front page\n# rendered and listed nothing. V6: until 2026-09-02 the compose then\n# mounted a hand-written copy read-only over the top of it, so this\n# file was generated and never seen.\n"@
}

pub open spec fn stack_view(st: (String, Vec<Entry>)) -> (Seq<char>, Seq<(Seq<char>, Seq<char>)>) {
    (st.0@, entries_view(st.1@))
}

pub open spec fn stacks_view(v: Seq<(String, Vec<Entry>)>) -> Seq<(Seq<char>, Seq<(Seq<char>, Seq<char>)>)> {
    v.map_values(|st: (String, Vec<Entry>)| stack_view(st))
}

pub open spec fn plain_entry(e: (Seq<char>, Seq<char>)) -> Seq<char> {
    "    - "@ + e.0 + ":\n        href: https://"@ + e.1 + "/\n        siteMonitor: https://"@ + e.1 + "/\n"@
}

pub open spec fn plain_entries(es: Seq<(Seq<char>, Seq<char>)>) -> Seq<char>
    decreases es.len(),
{
    if es.len() == 0 {
        Seq::empty()
    } else {
        plain_entries(es.drop_last()) + plain_entry(es.last())
    }
}

/// Without an overlay: one group per stack with routes, in order.
pub open spec fn plain_list(stacks: Seq<(Seq<char>, Seq<(Seq<char>, Seq<char>)>)>) -> Seq<char>
    decreases stacks.len(),
{
    if stacks.len() == 0 {
        Seq::empty()
    } else {
        plain_list(stacks.drop_last()) + if stacks.last().1.len() == 0 {
            Seq::empty()
        } else {
            "\n- "@ + stacks.last().0 + ":\n"@ + plain_entries(stacks.last().1)
        }
    }
}

/// The overlay block an href joins, if any: the first with the same key.
pub open spec fn block_for(blocks: Seq<BlockView>, href: Seq<char>) -> Option<BlockView>
    decreases blocks.len(),
{
    if blocks.len() == 0 {
        None
    } else if blocks[0].href == href_key_of(href) {
        Some(blocks[0])
    } else {
        block_for(blocks.drop_first(), href)
    }
}

/// The extra lines of a block, indented, blanks left out.
pub open spec fn extra_lines(extra: Seq<Seq<char>>) -> Seq<char>
    decreases extra.len(),
{
    if extra.len() == 0 {
        Seq::empty()
    } else {
        extra_lines(extra.drop_last()) + if trimmed(extra.last()).len() == 0 {
            Seq::empty()
        } else {
            "    "@ + extra.last() + "\n"@
        }
    }
}

pub open spec fn or_else(o: Option<Seq<char>>, d: Seq<char>) -> Seq<char> {
    match o {
        Some(x) => x,
        None => d,
    }
}

/// One routed service as (group, rendered block).
pub open spec fn routed_item(stack: Seq<char>, e: (Seq<char>, Seq<char>), blocks: Seq<BlockView>) -> (Seq<char>, Seq<char>) {
    let href = "https://"@ + e.1 + "/"@;
    match block_for(blocks, href) {
        Some(b) => (
            or_else(b.group, stack),
            "    - "@ + or_else(b.name, e.0) + ":\n        href: "@ + href + "\n"@ + if b.extra.len() > 0 {
                extra_lines(b.extra)
            } else {
                "        siteMonitor: https://"@ + e.1 + "/\n"@
            },
        ),
        None => (stack, "    - "@ + e.0 + ":\n        href: "@ + href + "\n        siteMonitor: https://"@ + e.1 + "/\n"@),
    }
}

pub open spec fn routed_in_stack(stack: Seq<char>, es: Seq<(Seq<char>, Seq<char>)>, blocks: Seq<BlockView>) -> Seq<(Seq<char>, Seq<char>)>
    decreases es.len(),
{
    if es.len() == 0 {
        Seq::empty()
    } else {
        routed_in_stack(stack, es.drop_last(), blocks).push(routed_item(stack, es.last(), blocks))
    }
}

pub open spec fn routed_items(stacks: Seq<(Seq<char>, Seq<(Seq<char>, Seq<char>)>)>, blocks: Seq<BlockView>) -> Seq<(Seq<char>, Seq<char>)>
    decreases stacks.len(),
{
    if stacks.len() == 0 {
        Seq::empty()
    } else {
        routed_items(stacks.drop_last(), blocks) + routed_in_stack(stacks.last().0, stacks.last().1, blocks)
    }
}

/// The hrefs of the overlay blocks the routes joined, in order.
pub open spec fn used_in_stack(es: Seq<(Seq<char>, Seq<char>)>, blocks: Seq<BlockView>) -> Seq<Seq<char>>
    decreases es.len(),
{
    if es.len() == 0 {
        Seq::empty()
    } else {
        used_in_stack(es.drop_last(), blocks) + match block_for(blocks, "https://"@ + es.last().1 + "/"@) {
            Some(b) => seq![b.href],
            None => Seq::empty(),
        }
    }
}

pub open spec fn used_hrefs(stacks: Seq<(Seq<char>, Seq<(Seq<char>, Seq<char>)>)>, blocks: Seq<BlockView>) -> Seq<Seq<char>>
    decreases stacks.len(),
{
    if stacks.len() == 0 {
        Seq::empty()
    } else {
        used_hrefs(stacks.drop_last(), blocks) + used_in_stack(stacks.last().1, blocks)
    }
}

pub open spec fn joined_href(stacks: Seq<(Seq<char>, Seq<(Seq<char>, Seq<char>)>)>, blocks: Seq<BlockView>, href: Seq<char>) -> bool {
    used_hrefs(stacks, blocks).contains(href)
}

/// Overlay blocks no route joined: deliberate manual links, kept.
pub open spec fn manual_items(stacks: Seq<(Seq<char>, Seq<(Seq<char>, Seq<char>)>)>, blocks: Seq<BlockView>, rest: Seq<BlockView>) -> Seq<(Seq<char>, Seq<char>)>
    decreases rest.len(),
{
    if rest.len() == 0 {
        Seq::empty()
    } else {
        let b = rest.last();
        manual_items(stacks, blocks, rest.drop_last()) + if joined_href(stacks, blocks, b.href) {
            Seq::empty()
        } else {
            seq![(or_else(b.group, "Overig"@), "    - "@ + or_else(b.name, b.href) + ":\n        href: "@ + b.href + "/\n"@ + extra_lines(b.extra))]
        }
    }
}

/// The position of a group in the overlay's order, or past all of them.
pub open spec fn group_rank(order: Seq<Seq<char>>, g: Seq<char>) -> int
    decreases order.len(),
{
    if order.len() == 0 {
        usize::MAX as int
    } else if order[0] == g {
        0
    } else if group_rank(order.drop_first(), g) == usize::MAX as int {
        usize::MAX as int
    } else {
        group_rank(order.drop_first(), g) + 1
    }
}

/// Items gathered into groups, in order of first appearance.
pub open spec fn grouped(items: Seq<(Seq<char>, Seq<char>)>) -> Seq<(Seq<char>, Seq<Seq<char>>)>
    decreases items.len(),
{
    if items.len() == 0 {
        Seq::empty()
    } else {
        let g = grouped(items.drop_last());
        let (name, body) = items.last();
        match group_pos(g, name) {
            Some(i) => g.update(i, (name, g[i].1.push(body))),
            None => g.push((name, seq![body])),
        }
    }
}

pub open spec fn group_pos(g: Seq<(Seq<char>, Seq<Seq<char>>)>, name: Seq<char>) -> Option<int>
    decreases g.len(),
{
    if g.len() == 0 {
        None
    } else if group_pos(g.drop_last(), name) is Some {
        group_pos(g.drop_last(), name)
    } else if g.last().0 == name {
        Some(g.len() - 1)
    } else {
        None
    }
}

/// Named groups first, in the overlay's order, then the rest by name.
pub open spec fn group_order_le(order: Seq<Seq<char>>) -> spec_fn((Seq<char>, Seq<Seq<char>>), (Seq<char>, Seq<Seq<char>>)) -> bool {
    |a: (Seq<char>, Seq<Seq<char>>), b: (Seq<char>, Seq<Seq<char>>)|
        group_rank(order, a.0) < group_rank(order, b.0) || (group_rank(order, a.0) == group_rank(order, b.0) && str_le(a.0, b.0))
}

pub open spec fn concat_all(v: Seq<Seq<char>>) -> Seq<char>
    decreases v.len(),
{
    if v.len() == 0 {
        Seq::empty()
    } else {
        concat_all(v.drop_last()) + v.last()
    }
}

pub open spec fn render_groups(gs: Seq<(Seq<char>, Seq<Seq<char>>)>) -> Seq<char>
    decreases gs.len(),
{
    if gs.len() == 0 {
        Seq::empty()
    } else {
        render_groups(gs.drop_last()) + "\n- "@ + gs.last().0 + ":\n"@ + concat_all(gs.last().1)
    }
}

/// Homepage's `services.yaml` for the whole fleet. Stable output, so a
/// deploy that changes nothing writes a byte-identical file.
pub open spec fn services_doc(stacks: Seq<(Seq<char>, Seq<(Seq<char>, Seq<char>)>)>, overlay: Option<(Seq<Seq<char>>, Seq<BlockView>)>) -> Seq<char> {
    match overlay {
        None => yaml_header() + plain_list(stacks),
        Some((order, blocks)) => yaml_header() + render_groups(sort_by(
            grouped(routed_items(stacks, blocks) + manual_items(stacks, blocks, blocks)),
            group_order_le(order),
        )),
    }
}

fn plain_services(stacks: &[(String, Vec<Entry>)], out: &mut String)
    ensures
        final(out)@ == old(out)@ + plain_list(stacks_view(stacks@)),
{
    let ghost o0 = out@;
    let ghost sv = stacks_view(stacks@);
    let mut i: usize = 0;
    while i < stacks.len()
        invariant
            i <= stacks.len(),
            sv == stacks_view(stacks@),
            out@ == o0 + plain_list(sv.take(i as int)),
        decreases stacks.len() - i,
    {
        proof {
            assert(sv.take(i + 1).drop_last() =~= sv.take(i as int));
            assert(sv.take(i + 1).last() == stack_view(stacks@[i as int]));
        }
        let (stack, entries) = &stacks[i];
        if entries.len() > 0 {
            out.append("\n- ");
            out.append(stack.as_str());
            out.append(":\n");
            let ghost o1 = out@;
            let ghost ev = entries_view(entries@);
            let mut j: usize = 0;
            while j < entries.len()
                invariant
                    j <= entries.len(),
                    ev == entries_view(entries@),
                    out@ == o1 + plain_entries(ev.take(j as int)),
                decreases entries.len() - j,
            {
                proof {
                    assert(ev.take(j + 1).drop_last() =~= ev.take(j as int));
                }
                let e = &entries[j];
                out.append("    - ");
                out.append(e.app.as_str());
                out.append(":\n        href: https://");
                out.append(e.host.as_str());
                out.append("/\n        siteMonitor: https://");
                out.append(e.host.as_str());
                out.append("/\n");
                j += 1;
            }
            proof {
                assert(ev.take(entries.len() as int) =~= ev);
            }
        }
        i += 1;
    }
    proof {
        assert(sv.take(stacks.len() as int) =~= sv);
    }
}

fn find_block(blocks: &Vec<OverlayBlock>, href: &str) -> (r: Option<usize>)
    ensures
        match r {
            Some(i) => i < blocks.len() && block_for(blocks_view(blocks@), href@) == Some(block_view(blocks@[i as int])),
            None => block_for(blocks_view(blocks@), href@) is None,
        },
{
    let key = href_key(href);
    let ghost bv = blocks_view(blocks@);
    let mut i: usize = 0;
    proof {
        assert(bv.subrange(0, bv.len() as int) =~= bv);
    }
    while i < blocks.len()
        invariant
            i <= blocks.len(),
            bv == blocks_view(blocks@),
            key@ == href_key_of(href@),
            block_for(bv, href@) == block_for(bv.subrange(i as int, bv.len() as int), href@),
        decreases blocks.len() - i,
    {
        proof {
            assert(bv.subrange(i as int, bv.len() as int).drop_first() =~= bv.subrange(i + 1, bv.len() as int));
            assert(bv.subrange(i as int, bv.len() as int)[0] == block_view(blocks@[i as int]));
        }
        if str_eq(blocks[i].href.as_str(), key.as_str()) {
            return Some(i);
        }
        i += 1;
    }
    None
}

fn extra_text(extra: &Vec<String>) -> (r: String)
    ensures
        r@ == extra_lines(string_views(extra@)),
{
    let ghost ev = string_views(extra@);
    let mut out = String::new();
    let mut i: usize = 0;
    while i < extra.len()
        invariant
            i <= extra.len(),
            ev == string_views(extra@),
            out@ == extra_lines(ev.take(i as int)),
        decreases extra.len() - i,
    {
        proof {
            assert(ev.take(i + 1).drop_last() =~= ev.take(i as int));
        }
        let l = extra[i].as_str();
        if trim(l).unicode_len() > 0 {
            out.append("    ");
            out.append(l);
            out.append("\n");
        }
        i += 1;
    }
    proof {
        assert(ev.take(extra.len() as int) =~= ev);
    }
    out
}

pub open spec fn items_view(v: Seq<(String, String)>) -> Seq<(Seq<char>, Seq<char>)> {
    v.map_values(|p: (String, String)| (p.0@, p.1@))
}

fn routed_item_exec(stack: &String, e: &Entry, blocks: &Vec<OverlayBlock>, items: &mut Vec<(String, String)>, used: &mut Vec<String>)
    ensures
        items_view(final(items)@) == items_view(old(items)@).push(routed_item(stack@, (e.app@, e.host@), blocks_view(blocks@))),
        string_views(final(used)@) == string_views(old(used)@) + match block_for(blocks_view(blocks@), "https://"@ + e.host@ + "/"@) {
            Some(b) => seq![b.href],
            None => Seq::<Seq<char>>::empty(),
        },
{
    let mut href = String::from_str("https://");
    href.append(e.host.as_str());
    href.append("/");
    let ghost iv = items_view(items@);
    let ghost uv = string_views(used@);
    match find_block(blocks, href.as_str()) {
        Some(k) => {
            let b = &blocks[k];
            used.push(b.href.clone());
            proof {
                assert(string_views(used@) =~= uv + seq![b.href@]);
            }
            let group = match &b.group {
                Some(g) => g.clone(),
                None => stack.clone(),
            };
            let name = match &b.name {
                Some(n) => n.clone(),
                None => e.app.clone(),
            };
            let mut body = String::from_str("    - ");
            body.append(name.as_str());
            body.append(":\n        href: ");
            body.append(href.as_str());
            body.append("\n");
            if b.extra.len() > 0 {
                let x = extra_text(&b.extra);
                body.append(x.as_str());
            } else {
                body.append("        siteMonitor: https://");
                body.append(e.host.as_str());
                body.append("/\n");
            }
            let ghost gv = group@;
            let ghost bdv = body@;
            items.push((group, body));
            proof {
                let bw = block_view(blocks@[k as int]);
                let hv = "https://"@ + e.host@ + "/"@;
                assert(hv == href@);
                assert(block_for(blocks_view(blocks@), hv) == Some(bw));
                assert(gv == or_else(bw.group, stack@));
                assert(bdv =~= "    - "@ + or_else(bw.name, e.app@) + ":\n        href: "@ + hv + "\n"@ + if bw.extra.len() > 0 {
                    extra_lines(bw.extra)
                } else {
                    "        siteMonitor: https://"@ + e.host@ + "/\n"@
                });
                assert(items_view(items@) =~= iv.push((gv, bdv)));
            }
        },
        None => {
            proof {
                assert(string_views(used@) =~= uv + Seq::<Seq<char>>::empty());
            }
            let mut body = String::from_str("    - ");
            body.append(e.app.as_str());
            body.append(":\n        href: ");
            body.append(href.as_str());
            body.append("\n        siteMonitor: https://");
            body.append(e.host.as_str());
            body.append("/\n");
            let ghost bdv = body@;
            items.push((stack.clone(), body));
            proof {
                let hv = "https://"@ + e.host@ + "/"@;
                assert(hv == href@);
                assert(bdv =~= "    - "@ + e.app@ + ":\n        href: "@ + hv + "\n        siteMonitor: https://"@ + e.host@ + "/\n"@);
                assert(items_view(items@) =~= iv.push((stack@, bdv)));
            }
        },
    }
}

fn routed_all(stacks: &[(String, Vec<Entry>)], blocks: &Vec<OverlayBlock>) -> (r: (Vec<(String, String)>, Vec<String>))
    ensures
        items_view(r.0@) == routed_items(stacks_view(stacks@), blocks_view(blocks@)),
        string_views(r.1@) == used_hrefs(stacks_view(stacks@), blocks_view(blocks@)),
{
    let ghost sv = stacks_view(stacks@);
    let ghost bv = blocks_view(blocks@);
    let mut items: Vec<(String, String)> = Vec::new();
    let mut used: Vec<String> = Vec::new();
    let mut i: usize = 0;
    proof {
        assert(items_view(items@) =~= Seq::<(Seq<char>, Seq<char>)>::empty());
        assert(string_views(used@) =~= Seq::<Seq<char>>::empty());
    }
    while i < stacks.len()
        invariant
            i <= stacks.len(),
            sv == stacks_view(stacks@),
            bv == blocks_view(blocks@),
            items_view(items@) == routed_items(sv.take(i as int), bv),
            string_views(used@) == used_hrefs(sv.take(i as int), bv),
        decreases stacks.len() - i,
    {
        proof {
            assert(sv.take(i + 1).drop_last() =~= sv.take(i as int));
            assert(sv.take(i + 1).last() == stack_view(stacks@[i as int]));
        }
        let (stack, entries) = &stacks[i];
        let ghost ev = entries_view(entries@);
        let ghost i0 = items_view(items@);
        let ghost u0 = string_views(used@);
        let mut j: usize = 0;
        while j < entries.len()
            invariant
                j <= entries.len(),
                ev == entries_view(entries@),
                bv == blocks_view(blocks@),
                items_view(items@) == i0 + routed_in_stack(stack@, ev.take(j as int), bv),
                string_views(used@) == u0 + used_in_stack(ev.take(j as int), bv),
            decreases entries.len() - j,
        {
            proof {
                assert(ev.take(j + 1).drop_last() =~= ev.take(j as int));
                assert(ev.take(j + 1).last() == (entries@[j as int].app@, entries@[j as int].host@));
            }
            routed_item_exec(stack, &entries[j], blocks, &mut items, &mut used);
            j += 1;
        }
        proof {
            assert(ev.take(entries.len() as int) =~= ev);
        }
        i += 1;
    }
    proof {
        assert(sv.take(stacks.len() as int) =~= sv);
    }
    (items, used)
}

fn manual_all(blocks: &Vec<OverlayBlock>, used: &Vec<String>, items: &mut Vec<(String, String)>, Ghost(sv): Ghost<Seq<(Seq<char>, Seq<(Seq<char>, Seq<char>)>)>>)
    requires
        string_views(used@) == used_hrefs(sv, blocks_view(blocks@)),
    ensures
        items_view(final(items)@) == items_view(old(items)@) + manual_items(sv, blocks_view(blocks@), blocks_view(blocks@)),
{
    let ghost bv = blocks_view(blocks@);
    let ghost i0 = items_view(items@);
    let mut i: usize = 0;
    while i < blocks.len()
        invariant
            i <= blocks.len(),
            bv == blocks_view(blocks@),
            string_views(used@) == used_hrefs(sv, bv),
            items_view(items@) == i0 + manual_items(sv, bv, bv.take(i as int)),
        decreases blocks.len() - i,
    {
        proof {
            assert(bv.take(i + 1).drop_last() =~= bv.take(i as int));
            assert(bv.take(i + 1).last() == block_view(blocks@[i as int]));
        }
        let b = &blocks[i];
        if !crate::text::contains_string(used, b.href.as_str()) {
            let group = match &b.group {
                Some(g) => g.clone(),
                None => String::from_str("Overig"),
            };
            let name = match &b.name {
                Some(n) => n.clone(),
                None => b.href.clone(),
            };
            let mut body = String::from_str("    - ");
            body.append(name.as_str());
            body.append(":\n        href: ");
            body.append(b.href.as_str());
            body.append("/\n");
            let x = extra_text(&b.extra);
            body.append(x.as_str());
            let ghost before = items_view(items@);
            let ghost gv = group@;
            let ghost bdv = body@;
            items.push((group, body));
            proof {
                assert(items_view(items@) =~= before.push((gv, bdv)));
            }
        }
        i += 1;
    }
    proof {
        assert(bv.take(blocks.len() as int) =~= bv);
    }
}

pub open spec fn groups_view(v: Seq<(String, Vec<String>)>) -> Seq<(Seq<char>, Seq<Seq<char>>)> {
    v.map_values(|p: (String, Vec<String>)| (p.0@, string_views(p.1@)))
}

proof fn lemma_group_pos(g: Seq<(Seq<char>, Seq<Seq<char>>)>, name: Seq<char>, i: int)
    requires
        0 <= i <= g.len(),
        forall|k: int| 0 <= k < i ==> g[k].0 != name,
        i < g.len() ==> g[i].0 == name,
    ensures
        i < g.len() ==> group_pos(g, name) == Some(i),
        i == g.len() ==> group_pos(g, name) is None,
    decreases g.len(),
{
    if g.len() > 0 {
        let p = g.drop_last();
        if i < p.len() {
            lemma_group_pos(p, name, i);
        } else {
            lemma_group_pos(p, name, p.len() as int);
        }
    }
}

fn group_items(items: Vec<(String, String)>) -> (r: Vec<(String, Vec<String>)>)
    ensures
        groups_view(r@) == grouped(items_view(items@)),
{
    let ghost iv = items_view(items@);
    let mut groups: Vec<(String, Vec<String>)> = Vec::new();
    let mut i: usize = 0;
    proof {
        assert(groups_view(groups@) =~= Seq::<(Seq<char>, Seq<Seq<char>>)>::empty());
    }
    while i < items.len()
        invariant
            i <= items.len(),
            iv == items_view(items@),
            groups_view(groups@) == grouped(iv.take(i as int)),
        decreases items.len() - i,
    {
        proof {
            assert(iv.take(i + 1).drop_last() =~= iv.take(i as int));
            assert(iv.take(i + 1).last() == (items@[i as int].0@, items@[i as int].1@));
        }
        let (name, body) = &items[i];
        let ghost gv = groups_view(groups@);
        let mut j: usize = 0;
        while j < groups.len()
            invariant
                j <= groups.len(),
                gv == groups_view(groups@),
                forall|k: int| 0 <= k < j ==> gv[k].0 != name@,
            ensures
                j <= groups.len(),
                forall|k: int| 0 <= k < j ==> gv[k].0 != name@,
                j < groups.len() ==> gv[j as int].0 == name@,
            decreases groups.len() - j,
        {
            if str_eq(groups[j].0.as_str(), name.as_str()) {
                break;
            }
            j += 1;
        }
        proof {
            lemma_group_pos(gv, name@, j as int);
        }
        if j < groups.len() {
            let (g, mut bodies) = groups.remove(j);
            let ghost bv0 = string_views(bodies@);
            bodies.push(body.clone());
            proof {
                assert(string_views(bodies@) =~= bv0.push(body@));
            }
            groups.insert(j, (g, bodies));
            proof {
                assert(groups_view(groups@) =~= gv.update(j as int, (name@, gv[j as int].1.push(body@))));
            }
        } else {
            let mut bodies: Vec<String> = Vec::new();
            bodies.push(body.clone());
            proof {
                assert(string_views(bodies@) =~= seq![body@]);
            }
            groups.push((name.clone(), bodies));
            proof {
                assert(groups_view(groups@) =~= gv.push((name@, seq![body@])));
            }
        }
        i += 1;
    }
    proof {
        assert(iv.take(items.len() as int) =~= iv);
    }
    groups
}

proof fn lemma_rank_bound(s: Seq<Seq<char>>, g: Seq<char>)
    ensures
        group_rank(s, g) == usize::MAX as int || 0 <= group_rank(s, g) < s.len(),
    decreases s.len(),
{
    if s.len() > 0 {
        lemma_rank_bound(s.drop_first(), g);
    }
}

fn rank(order: &Vec<String>, g: &str) -> (r: usize)
    ensures
        r as int == group_rank(string_views(order@), g@),
{
    let ghost ov = string_views(order@);
    let mut i: usize = 0;
    proof {
        assert(ov.skip(0) =~= ov);
    }
    while i < order.len()
        invariant
            i <= order.len(),
            ov == string_views(order@),
            forall|k: int| 0 <= k < i ==> ov[k] != g@,
            group_rank(ov, g@) == (if group_rank(ov.skip(i as int), g@) == usize::MAX as int { usize::MAX as int } else { group_rank(ov.skip(i as int), g@) + i }),
        decreases order.len() - i,
    {
        proof {
            assert(ov.skip(i as int)[0] == order@[i as int]@);
            assert(ov.skip(i as int).drop_first() =~= ov.skip(i + 1));
            lemma_rank_bound(ov.skip(i + 1), g@);
        }
        if str_eq(order[i].as_str(), g) {
            return i;
        }
        i += 1;
    }
    proof {
        assert(ov.skip(order.len() as int) =~= Seq::<Seq<char>>::empty());
    }
    usize::MAX
}

fn sort_groups(groups: Vec<(String, Vec<String>)>, order: &Vec<String>) -> (r: Vec<(String, Vec<String>)>)
    ensures
        groups_view(r@) == sort_by(groups_view(groups@), group_order_le(string_views(order@))),
{
    let ghost le = group_order_le(string_views(order@));
    let ghost vs = groups_view(groups@);
    let mut out: Vec<(String, Vec<String>)> = Vec::new();
    let mut rest = groups;
    let ghost all = rest@;
    let ghost mut i: int = 0;
    while rest.len() > 0
        invariant
            0 <= i <= all.len(),
            i + rest@.len() == all.len(),
            rest@ == all.subrange(i, all.len() as int),
            vs == groups_view(all),
            le == group_order_le(string_views(order@)),
            groups_view(out@) == sort_by(vs.take(i), le),
        decreases rest@.len(),
    {
        let x = rest.remove(0);
        let ghost xv = (x.0@, string_views(x.1@));
        let ghost sv = groups_view(out@);
        let rx = rank(order, x.0.as_str());
        let mut j = out.len();
        loop
            invariant
                j <= out.len(),
                sv == groups_view(out@),
                rx as int == group_rank(string_views(order@), x.0@),
                xv == (x.0@, string_views(x.1@)),
                le == group_order_le(string_views(order@)),
                forall|k: int| j <= k < sv.len() ==> !le(#[trigger] sv[k], xv),
            ensures
                j <= out.len(),
                forall|k: int| j <= k < sv.len() ==> !le(#[trigger] sv[k], xv),
                j == 0 || le(sv[j - 1], xv),
            decreases j,
        {
            if j == 0 {
                break;
            }
            let ry = rank(order, out[j - 1].0.as_str());
            let before = ry < rx || (ry == rx && str_le_exec(out[j - 1].0.as_str(), x.0.as_str()));
            proof {
                assert(sv[j - 1].0 == out@[j - 1].0@);
                let ov = string_views(order@);
                assert(ry as int == group_rank(ov, sv[j - 1].0));
                assert(le(sv[j - 1], xv) == (group_rank(ov, sv[j - 1].0) < group_rank(ov, xv.0) || (group_rank(ov, sv[j - 1].0) == group_rank(ov, xv.0) && str_le(sv[j - 1].0, xv.0))));
                assert(le(sv[j - 1], xv) == before);
            }
            if before {
                break;
            }
            j -= 1;
        }
        proof {
            assert(vs.take(i + 1).drop_last() =~= vs.take(i));
            assert(x == all[i]);
            assert(vs.take(i + 1).last() == xv);
            lemma_insert_at(sv, xv, le, j as int);
        }
        out.insert(j, x);
        proof {
            assert(groups_view(out@) =~= sv.take(j as int).push(xv) + sv.skip(j as int));
            i = i + 1;
        }
    }
    proof {
        assert(vs.take(i) =~= vs);
    }
    out
}

fn render(groups: &Vec<(String, Vec<String>)>, out: &mut String)
    ensures
        final(out)@ == old(out)@ + render_groups(groups_view(groups@)),
{
    let ghost o0 = out@;
    let ghost gv = groups_view(groups@);
    let mut i: usize = 0;
    while i < groups.len()
        invariant
            i <= groups.len(),
            gv == groups_view(groups@),
            out@ == o0 + render_groups(gv.take(i as int)),
        decreases groups.len() - i,
    {
        proof {
            assert(gv.take(i + 1).drop_last() =~= gv.take(i as int));
            assert(gv.take(i + 1).last() == (groups@[i as int].0@, string_views(groups@[i as int].1@)));
        }
        out.append("\n- ");
        out.append(groups[i].0.as_str());
        out.append(":\n");
        let ghost o1 = out@;
        let bodies = &groups[i].1;
        let ghost bv = string_views(bodies@);
        let mut j: usize = 0;
        while j < bodies.len()
            invariant
                j <= bodies.len(),
                bv == string_views(bodies@),
                out@ == o1 + concat_all(bv.take(j as int)),
            decreases bodies.len() - j,
        {
            proof {
                assert(bv.take(j + 1).drop_last() =~= bv.take(j as int));
            }
            out.append(bodies[j].as_str());
            j += 1;
        }
        proof {
            assert(bv.take(bodies.len() as int) =~= bv);
        }
        i += 1;
    }
    proof {
        assert(gv.take(groups.len() as int) =~= gv);
    }
}

pub open spec fn overlay_view(o: Option<&Overlay>) -> Option<(Seq<Seq<char>>, Seq<BlockView>)> {
    match o {
        Some(ov) => Some((string_views(ov.group_order@), blocks_view(ov.blocks@))),
        None => None,
    }
}

/// Render Homepage's `services.yaml`: one group per stack (or per overlay
/// group), joined with the overlay on `href`; overlay blocks no route
/// joined are kept as the manual links they are.
pub fn services_yaml(stacks: &[(String, Vec<Entry>)], overlay: Option<&Overlay>) -> (r: String)
    ensures
        r@ == services_doc(stacks_view(stacks@), overlay_view(overlay)),
{
    let mut out = String::from_str("# Generated by the homelab orchestrator — every stack that has a\n# gateway route appears here, joined on href with the overlay in\n# services-overlay.yml for icons, descriptions, widgets and\n# grouping. Edit the overlay or the stack's route file; edits here\n# are overwritten on the next deploy.\n#\n# T51: this file was 0 bytes until 2026-09-01, so the front page\n# rendered and listed nothing. V6: until 2026-09-02 the compose then\n# mounted a hand-written copy read-only over the top of it, so this\n# file was generated and never seen.\n");
    match overlay {
        None => {
            plain_services(stacks, &mut out);
            out
        },
        Some(ov) => {
            let (mut items, used) = routed_all(stacks, &ov.blocks);
            manual_all(&ov.blocks, &used, &mut items, Ghost(stacks_view(stacks@)));
            let groups = group_items(items);
            let sorted = sort_groups(groups, &ov.group_order);
            render(&sorted, &mut out);
            out
        },
    }
}

} // verus!
