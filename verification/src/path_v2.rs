//! A second path representation: a path split into nodes at the dots, and
//! groups of paths merged into a tree by their nodes.

use crate::chars;
use crate::util::{bytes_eq, equal_escape_u8, spec_equal_escape};
use crate::wild::{is_match_u8, spec_wild_match};
use vstd::prelude::*;

verus! {

/// One node of a path: its text and whether it holds a query, a wildcard
/// or a `#`.
#[derive(Debug)]
pub struct Node<'a> {
    pub raw: &'a [u8],
    pub query: bool,
    pub wild: bool,
    pub arrch: bool,
}

/// The model of a node.
pub struct NodeModel {
    pub raw: Seq<u8>,
    pub query: bool,
    pub wild: bool,
    pub arrch: bool,
}

impl<'a> Node<'a> {
    pub open spec fn model(&self) -> NodeModel {
        NodeModel { raw: self.raw@, query: self.query, wild: self.wild, arrch: self.arrch }
    }

    /// A node with the text `v` and no flags.
    pub fn new(v: &'a [u8]) -> (r: Node<'a>)
        ensures
            r.model() == (NodeModel { raw: v@, query: false, wild: false, arrch: false }),
    {
        Node { raw: v, query: false, wild: false, arrch: false }
    }
}

/// The models of a list of nodes.
pub open spec fn nodes_model(v: Seq<Node>) -> Seq<NodeModel> {
    Seq::new(v.len(), |i: int| v[i].model())
}

/// The scan of one node of `s` from position `i` (the node starts at
/// `start`), at bracket depth `depth`: a backslash skips the byte after it;
/// a bracket opened at depth one right after a `#` marks a query; `#`,
/// `*` and `?` at depth zero mark the node; a dot at depth zero ends it.
/// Returns the node, where the next node's scan goes on, the depth there,
/// and whether the path is over: a node is the last when no dot ends it
/// or when the dot stands at its very start, and it then runs to the end.
pub open spec fn node_scan(
    s: Seq<u8>,
    i: int,
    depth: int,
    start: int,
    query: bool,
    wild: bool,
    arrch: bool,
) -> (NodeModel, int, int, bool)
    decreases s.len() + 2 - i,
{
    if i < 0 || i >= s.len() {
        (NodeModel { raw: s.subrange(start, s.len() as int), query, wild, arrch }, s.len() as int, depth, true)
    } else {
        let c = s[i];
        if c == chars::BACKSLASH {
            node_scan(s, i + 2, depth, start, query, wild, arrch)
        } else if c == chars::LBRACKET || c == chars::LBRACE || c == chars::LPAREN {
            let q = query || (depth + 1 == 1 && i > 0 && s[i - 1] == chars::HASH);
            node_scan(s, i + 1, depth + 1, start, q, wild, arrch)
        } else if c == chars::RBRACKET || c == chars::RBRACE || c == chars::RPAREN {
            node_scan(s, i + 1, depth - 1, start, query, wild, arrch)
        } else if c == chars::HASH {
            node_scan(s, i + 1, depth, start, query, wild, arrch || depth == 0)
        } else if c == chars::STAR || c == chars::QUESTION {
            node_scan(s, i + 1, depth, start, query, wild || depth == 0, arrch)
        } else if c == chars::DOT && depth == 0 {
            if i > start {
                (NodeModel { raw: s.subrange(start, i), query, wild, arrch }, i + 1, depth, false)
            } else {
                (NodeModel { raw: s.subrange(start, s.len() as int), query, wild, arrch }, i + 1, depth, true)
            }
        } else {
            node_scan(s, i + 1, depth, start, query, wild, arrch)
        }
    }
}

pub proof fn lemma_node_scan_progress(
    s: Seq<u8>,
    i: int,
    depth: int,
    start: int,
    query: bool,
    wild: bool,
    arrch: bool,
)
    requires
        0 <= start <= i,
    ensures
        ({
            let r = node_scan(s, i, depth, start, query, wild, arrch);
            &&& (!r.3 ==> r.1 > i && r.1 <= s.len())
        }),
    decreases s.len() + 2 - i,
{
    if 0 <= i < s.len() {
        let c = s[i];
        if c == chars::BACKSLASH {
            lemma_node_scan_progress(s, i + 2, depth, start, query, wild, arrch);
        } else if c == chars::LBRACKET || c == chars::LBRACE || c == chars::LPAREN {
            let q = query || (depth + 1 == 1 && i > 0 && s[i - 1] == chars::HASH);
            lemma_node_scan_progress(s, i + 1, depth + 1, start, q, wild, arrch);
        } else if c == chars::RBRACKET || c == chars::RBRACE || c == chars::RPAREN {
            lemma_node_scan_progress(s, i + 1, depth - 1, start, query, wild, arrch);
        } else if c == chars::HASH {
            lemma_node_scan_progress(s, i + 1, depth, start, query, wild, arrch || depth == 0);
        } else if c == chars::STAR || c == chars::QUESTION {
            lemma_node_scan_progress(s, i + 1, depth, start, query, wild || depth == 0, arrch);
        } else if c == chars::DOT && depth == 0 {
        } else {
            lemma_node_scan_progress(s, i + 1, depth, start, query, wild, arrch);
        }
    }
}

/// The nodes of `s` from the node that starts at `i`, at depth `depth`.
pub open spec fn nodes_from(s: Seq<u8>, i: int, depth: int) -> Seq<NodeModel>
    decreases s.len() + 1 - i,
{
    let r = node_scan(s, i, depth, i, false, false, false);
    if r.3 || i < 0 || i > s.len() {
        seq![r.0]
    } else {
        proof {
            lemma_node_scan_progress(s, i, depth, i, false, false, false);
        }
        seq![r.0] + nodes_from(s, r.1, r.2)
    }
}

/// The nodes of the path `s`.
pub open spec fn spec_parse_nodes(s: Seq<u8>) -> Seq<NodeModel> {
    nodes_from(s, 0, 0)
}

/// Scans one node; see `node_scan`.
fn scan_node<'a>(s: &'a [u8], i0: usize, depth0: i128) -> (r: (Node<'a>, usize, i128, bool))
    requires
        i0 <= s@.len(),
        -(i0 as int) <= depth0 <= i0 as int,
    ensures
        ({
            let m = node_scan(s@, i0 as int, depth0 as int, i0 as int, false, false, false);
            &&& r.0.model() == m.0
            &&& r.1 as int == m.1
            &&& r.2 as int == m.2
            &&& r.3 == m.3
            &&& !r.3 ==> r.1 <= s@.len()
            &&& -(r.1 as int) <= r.2 <= r.1 as int
        }),
{
    let len = s.len();
    let start = i0;
    let mut i = i0;
    let mut depth = depth0;
    let mut query = false;
    let mut wild = false;
    let mut arrch = false;
    proof {
        lemma_node_scan_progress(s@, i0 as int, depth0 as int, i0 as int, false, false, false);
    }
    while i < len
        invariant
            len == s@.len(),
            start <= i <= len,
            start == i0,
            -(i as int) <= depth <= i as int,
            node_scan(s@, i as int, depth as int, start as int, query, wild, arrch) == node_scan(
                s@,
                i0 as int,
                depth0 as int,
                i0 as int,
                false,
                false,
                false,
            ),
        decreases len - i,
    {
        let c = s[i];
        if c == chars::BACKSLASH {
            let ghost ii = i as int;
            if len - i >= 2 {
                i += 2;
            } else {
                assert(node_scan(s@, ii + 2, depth as int, start as int, query, wild, arrch)
                    == node_scan(s@, len as int, depth as int, start as int, query, wild, arrch));
                i = len;
            }
        } else if c == chars::LBRACKET || c == chars::LBRACE || c == chars::LPAREN {
            depth += 1;
            if depth == 1 && i > 0 && s[i - 1] == chars::HASH {
                query = true;
            }
            i += 1;
        } else if c == chars::RBRACKET || c == chars::RBRACE || c == chars::RPAREN {
            depth -= 1;
            i += 1;
        } else if c == chars::HASH {
            if depth == 0 {
                arrch = true;
            }
            i += 1;
        } else if c == chars::STAR || c == chars::QUESTION {
            if depth == 0 {
                wild = true;
            }
            i += 1;
        } else if c == chars::DOT && depth == 0 {
            if i > start {
                let node = Node { raw: &s[start..i], query, wild, arrch };
                return (node, i + 1, depth, false);
            } else {
                let node = Node { raw: &s[start..len], query, wild, arrch };
                return (node, i + 1, depth, true);
            }
        } else {
            i += 1;
        }
    }
    let node = Node { raw: &s[start..len], query, wild, arrch };
    (node, i, depth, true)
}

/// Splits the path `s` into its nodes; see `spec_parse_nodes`. It always
/// succeeds.
pub fn parse(s: &[u8]) -> (r: Option<Vec<Node>>)
    ensures
        r matches Some(v) && nodes_model(v@) == spec_parse_nodes(s@),
{
    let mut path: Vec<Node> = Vec::new();
    let mut i: usize = 0;
    let mut depth: i128 = 0;
    let ghost mut acc: Seq<NodeModel> = Seq::empty();
    proof {
        assert(nodes_model(path@) =~= acc);
    }
    loop
        invariant
            i <= s@.len(),
            -(i as int) <= depth <= i as int,
            nodes_model(path@) == acc,
            acc + nodes_from(s@, i as int, depth as int) == spec_parse_nodes(s@),
        decreases s@.len() + 1 - i,
    {
        let ghost m = node_scan(s@, i as int, depth as int, i as int, false, false, false);
        proof {
            lemma_node_scan_progress(s@, i as int, depth as int, i as int, false, false, false);
        }
        let (node, next, d, finish) = scan_node(s, i, depth);
        let ghost before = path@;
        path.push(node);
        proof {
            assert(nodes_model(path@) =~= nodes_model(before).push(m.0));
        }
        if finish {
            proof {
                assert(nodes_from(s@, i as int, depth as int) == seq![m.0]);
                assert(nodes_model(path@) =~= spec_parse_nodes(s@));
            }
            return Some(path);
        }
        proof {
            assert(nodes_from(s@, i as int, depth as int) == seq![m.0] + nodes_from(s@, m.1, m.2));
            assert(acc + nodes_from(s@, i as int, depth as int) =~= acc.push(m.0) + nodes_from(
                s@,
                m.1,
                m.2,
            ));
            acc = acc.push(m.0);
        }
        i = next;
        depth = d;
    }
}

/// A node of a tree of paths: its text, whether its key is a wildcard,
/// whether a path ends here (and which, by `index`), how many sub-groups it
/// has and has matched, and the sub-groups.
#[derive(Debug)]
pub struct Group<'a> {
    pub index: usize,
    pub raw: &'a [u8],
    pub wild: bool,
    pub path_end: bool,
    pub sub_count: usize,
    pub match_count: usize,
    pub m: Option<Vec<Group<'a>>>,
}

/// The model of a group.
pub struct GroupModel {
    pub index: usize,
    pub raw: Seq<u8>,
    pub wild: bool,
    pub path_end: bool,
    pub sub_count: usize,
    pub match_count: usize,
    pub m: Option<Seq<GroupModel>>,
}

impl<'a> Group<'a> {
    pub open spec fn model(&self) -> GroupModel
        decreases self,
    {
        GroupModel {
            index: self.index,
            raw: self.raw@,
            wild: self.wild,
            path_end: self.path_end,
            sub_count: self.sub_count,
            match_count: self.match_count,
            m: match &self.m {
                Some(v) => Some(
                    Seq::new(
                        v@.len(),
                        |i: int|
                            {
                                proof {
                                    assert(decreases_to!(v => v@));
                                }
                                if 0 <= i < v@.len() {
                                    v@[i].model()
                                } else {
                                    new_group_model(Seq::empty())
                                }
                            },
                    ),
                ),
                None => None,
            },
        }
    }

    /// A group for the key `s`, with nothing below it.
    pub fn new(s: &'a [u8]) -> (g: Group<'a>)
        ensures
            g.model() == new_group_model(s@),
    {
        Group { index: 0, raw: s, wild: false, path_end: false, m: None, sub_count: 0, match_count: 0 }
    }

    /// Whether the group has sub-groups.
    pub fn has_sub_path(&self) -> (r: bool)
        ensures
            r == (self.m is Some),
    {
        self.m.is_some()
    }

    /// Whether the key `k` is the group's: by wildcard for a wildcard
    /// group, else with backslashes taken as escapes.
    pub fn match_key(&self, k: &[u8]) -> (r: bool)
        ensures
            r == group_key_matches(self.model(), k@),
    {
        if self.wild {
            is_match_u8(k, self.raw)
        } else {
            equal_escape_u8(k, self.raw)
        }
    }

    /// Whether some sub-group is still to be matched.
    pub fn need_match(&self) -> (r: bool)
        ensures
            r == (self.match_count < self.sub_count),
    {
        self.match_count < self.sub_count
    }
}

/// A group for the key `raw`, with nothing below it.
pub open spec fn new_group_model(raw: Seq<u8>) -> GroupModel {
    GroupModel {
        index: 0,
        raw,
        wild: false,
        path_end: false,
        sub_count: 0,
        match_count: 0,
        m: None,
    }
}

/// Whether the key `k` is the one of group `g`; see `Group::match_key`.
pub open spec fn group_key_matches(g: GroupModel, k: Seq<u8>) -> bool {
    if g.wild {
        spec_wild_match(k, g.raw)
    } else {
        spec_equal_escape(k, g.raw, 0, 0)
    }
}

/// The sub-groups of a group (none when it has none).
pub open spec fn children_of(g: GroupModel) -> Seq<GroupModel> {
    match g.m {
        Some(c) => c,
        None => Seq::empty(),
    }
}

/// The models of a list of groups.
pub open spec fn groups_model(v: Seq<Group>) -> Seq<GroupModel> {
    Seq::new(v.len(), |k: int| v[k].model())
}

/// The first position at or after `j` of a group with the text `raw`, or
/// the length.
pub open spec fn raw_index(ch: Seq<GroupModel>, raw: Seq<u8>, j: int) -> int
    decreases ch.len() - j,
{
    if j < 0 || j >= ch.len() {
        ch.len() as int
    } else if ch[j].raw == raw {
        j
    } else {
        raw_index(ch, raw, j + 1)
    }
}

/// The first position at or after `j` of a group whose key `k` matches, or
/// the length.
pub open spec fn key_group_index(ch: Seq<GroupModel>, k: Seq<u8>, j: int) -> int
    decreases ch.len() - j,
{
    if j < 0 || j >= ch.len() {
        ch.len() as int
    } else if group_key_matches(ch[j], k) {
        j
    } else {
        key_group_index(ch, k, j + 1)
    }
}

/// Adds the path with nodes `nodes` (numbered `i`) below group `g`: the
/// first node goes to the sub-group with its text (made, and counted, when
/// there is none), the rest below it; where the nodes run out the path
/// ends. The count of sub-groups wraps around at its maximum.
pub open spec fn spec_group_add(g: GroupModel, i: usize, nodes: Seq<NodeModel>) -> GroupModel
    decreases nodes.len(),
{
    if nodes.len() == 0 {
        GroupModel { path_end: true, index: i, ..g }
    } else {
        let n = nodes[0];
        let rest = nodes.drop_first();
        let ch = children_of(g);
        let j = raw_index(ch, n.raw, 0);
        if 0 <= j < ch.len() {
            GroupModel { m: Some(ch.update(j, spec_group_add(ch[j], i, rest))), ..g }
        } else {
            GroupModel {
                m: Some(ch.push(spec_group_add(GroupModel { wild: n.wild, ..new_group_model(n.raw) }, i, rest))),
                sub_count: if g.sub_count == usize::MAX { 0 } else { (g.sub_count + 1) as usize },
                ..g
            }
        }
    }
}

proof fn lemma_groups_model<'a>(g: Group<'a>)
    ensures
        g.m matches Some(v) ==> g.model().m == Some(groups_model(v@)),
        g.m is None ==> g.model().m is None,
{
    match &g.m {
        Some(v) => {
            assert(g.model().m->0 =~= groups_model(v@));
        },
        None => {},
    }
}

proof fn lemma_raw_index(ch: Seq<GroupModel>, raw: Seq<u8>, j: int)
    requires
        0 <= j <= ch.len(),
    ensures
        j <= raw_index(ch, raw, j) <= ch.len(),
        raw_index(ch, raw, j) < ch.len() ==> ch[raw_index(ch, raw, j)].raw == raw,
    decreases ch.len() - j,
{
    if j < ch.len() && ch[j].raw != raw {
        lemma_raw_index(ch, raw, j + 1);
    }
}

impl<'a> Group<'a> {
    /// Adds the path `p` (numbered `i`) below the group; see
    /// `spec_group_add`.
    pub fn add(&mut self, i: usize, p: Vec<Node<'a>>)
        ensures
            final(self).model() == spec_group_add(old(self).model(), i, nodes_model(p@)),
        decreases p@.len(),
    {
        let mut p = p;
        let ghost nodes = nodes_model(p@);
        if p.len() == 0 {
            self.path_end = true;
            self.index = i;
            proof {
                assert(self.model().m == old(self).model().m);
            }
            return;
        }
        let ghost before_p = p@;
        let n = p.remove(0);
        proof {
            assert(nodes_model(p@) =~= nodes.drop_first());
            assert(nodes[0] == n.model());
            lemma_groups_model(*old(self));
        }
        let ghost ch = children_of(old(self).model());
        let mut children = match self.m.take() {
            Some(v) => v,
            None => Vec::new(),
        };
        proof {
            assert(groups_model(children@) =~= ch);
        }
        let mut j: usize = 0;
        let mut found = false;
        while j < children.len() && !found
            invariant
                groups_model(children@) == ch,
                j <= children@.len(),
                !found ==> raw_index(ch, n.raw@, j as int) == raw_index(ch, n.raw@, 0),
                found ==> j < children@.len() && raw_index(ch, n.raw@, 0) == j,
            decreases children@.len() - j, if found { 0int } else { 1int },
        {
            let same = bytes_eq(children[j].raw, n.raw);
            proof {
                assert(ch[j as int] == children@[j as int].model());
            }
            if same {
                found = true;
            } else {
                j += 1;
            }
        }
        if found {
            let mut g = children.remove(j);
            proof {
                assert(g.model() == ch[j as int]);
            }
            g.add(i, p);
            let ghost gm = g.model();
            children.insert(j, g);
            proof {
                assert(groups_model(children@) =~= ch.update(j as int, gm));
            }
            self.m = Some(children);
            proof {
                lemma_groups_model(*self);
            }
        } else {
            let mut g = Group::new(n.raw);
            g.wild = n.wild;
            proof {
                assert(g.model() == (GroupModel { wild: n.wild, ..new_group_model(n.raw@) }));
            }
            g.add(i, p);
            let ghost gm = g.model();
            children.push(g);
            proof {
                assert(groups_model(children@) =~= ch.push(gm));
            }
            self.m = Some(children);
            self.sub_count = self.sub_count.wrapping_add(1);
            proof {
                lemma_groups_model(*self);
            }
        }
    }
}

impl<'a> Group<'a> {
    /// The first sub-group whose key matches `key`, counted as matched;
    /// nothing (and no change) when none does.
    pub fn find_sub_group(&mut self, key: &[u8]) -> (r: Option<&mut Group<'a>>)
        requires
            old(self).m is Some,
            old(self).match_count < usize::MAX,
        ensures
            ({
                let ch = children_of(old(self).model());
                let j = key_group_index(ch, key@, 0);
                if j < ch.len() {
                    &&& r is Some
                    &&& *r->0 == old(self).m->0@[j]
                    &&& final(self).match_count == old(self).match_count + 1
                    &&& final(self).index == old(self).index
                    &&& final(self).raw == old(self).raw
                    &&& final(self).wild == old(self).wild
                    &&& final(self).path_end == old(self).path_end
                    &&& final(self).sub_count == old(self).sub_count
                    &&& final(self).m matches Some(v) && v@ == old(self).m->0@.update(j, *final(r->0))
                } else {
                    &&& r is None
                    &&& *final(self) == *old(self)
                }
            }),
    {
        proof {
            lemma_groups_model(*old(self));
        }
        let ghost ch = children_of(old(self).model());
        let mut j: usize = 0;
        let mut found = false;
        match &self.m {
            Some(children) => {
                while j < children.len() && !found
                    invariant
                        groups_model(children@) == ch,
                        j <= children@.len(),
                        !found ==> key_group_index(ch, key@, j as int) == key_group_index(ch, key@, 0),
                        found ==> j < children@.len() && key_group_index(ch, key@, 0) == j,
                    decreases children@.len() - j, if found { 0int } else { 1int },
                {
                    let hit = children[j].match_key(key);
                    proof {
                        assert(ch[j as int] == children@[j as int].model());
                    }
                    if hit {
                        found = true;
                    } else {
                        j += 1;
                    }
                }
            },
            None => {},
        }
        if !found {
            return None;
        }
        self.match_count += 1;
        match self.m.as_mut() {
            Some(children) => {
                let g = &mut children[j];
                Some(g)
            },
            None => None,
        }
    }
}

/// The group reached from `g` by following, one level at a time, the
/// sub-group whose text is the next of `raws`; nothing where there is
/// none.
pub open spec fn group_walk(g: GroupModel, raws: Seq<Seq<u8>>) -> Option<GroupModel>
    decreases raws.len(),
{
    if raws.len() == 0 {
        Some(g)
    } else {
        let ch = children_of(g);
        let j = raw_index(ch, raws[0], 0);
        if j < ch.len() {
            group_walk(ch[j], raws.drop_first())
        } else {
            None
        }
    }
}

/// The texts of a path's nodes.
pub open spec fn node_raws(nodes: Seq<NodeModel>) -> Seq<Seq<u8>> {
    Seq::new(nodes.len(), |k: int| nodes[k].raw)
}

/// No group before the one `raw_index` finds has the text.
proof fn lemma_raw_index_first(ch: Seq<GroupModel>, raw: Seq<u8>, j: int)
    requires
        0 <= j <= ch.len(),
    ensures
        forall|k: int| j <= k < raw_index(ch, raw, j) ==> #[trigger] ch[k].raw != raw,
    decreases ch.len() - j,
{
    if j < ch.len() && ch[j].raw != raw {
        lemma_raw_index_first(ch, raw, j + 1);
    }
}

/// The first group with the text is found wherever it stands.
proof fn lemma_raw_index_at(ch: Seq<GroupModel>, raw: Seq<u8>, j: int, at: int)
    requires
        0 <= j <= at <= ch.len(),
        at < ch.len() ==> ch[at].raw == raw,
        forall|k: int| j <= k < at ==> #[trigger] ch[k].raw != raw,
    ensures
        raw_index(ch, raw, j) == at,
    decreases at - j,
{
    if j < at {
        lemma_raw_index_at(ch, raw, j + 1, at);
    }
}

/// The law that a path added to a group is found again: following the
/// texts of its nodes down from the group leads to a group where a path
/// ends, numbered as the path was.
pub proof fn lemma_added_path_found(g: GroupModel, i: usize, nodes: Seq<NodeModel>)
    ensures
        group_walk(spec_group_add(g, i, nodes), node_raws(nodes)) matches Some(h) && h.path_end
            && h.index == i,
    decreases nodes.len(),
{
    if nodes.len() > 0 {
        let n = nodes[0];
        let rest = nodes.drop_first();
        let ch = children_of(g);
        let j = raw_index(ch, n.raw, 0);
        lemma_raw_index(ch, n.raw, 0);
        lemma_raw_index_first(ch, n.raw, 0);
        assert(node_raws(nodes).drop_first() =~= node_raws(rest));
        assert(node_raws(nodes)[0] == n.raw);
        let g2 = spec_group_add(g, i, nodes);
        if 0 <= j < ch.len() {
            let sub = spec_group_add(ch[j], i, rest);
            let ch2 = ch.update(j, sub);
            assert(children_of(g2) == ch2);
            assert(sub.raw == ch[j].raw);
            lemma_raw_index_at(ch2, n.raw, 0, j);
            lemma_added_path_found(ch[j], i, rest);
        } else {
            let fresh = GroupModel { wild: n.wild, ..new_group_model(n.raw) };
            let sub = spec_group_add(fresh, i, rest);
            let ch2 = ch.push(sub);
            assert(children_of(g2) == ch2);
            assert(sub.raw == n.raw);
            lemma_raw_index_at(ch2, n.raw, 0, ch.len() as int);
            lemma_added_path_found(fresh, i, rest);
        }
    }
}

} // verus!
