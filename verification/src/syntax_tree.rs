//! The buffer's syntax tree, modelled as a flat preorder list of nodes with
//! byte ranges and parent links. Parsing is delegated to the grammar
//! collaborator behind a trusted boundary; everything read from the raw parse
//! is validated here before a [`SyntaxTree`] exists, so all structural
//! queries are verified against the tree's well-formedness alone.

use vstd::prelude::*;

verus! {

#[verifier::external_type_specification]
#[verifier::external_body]
pub struct ExLanguage(tree_sitter::Language);

/// One node as handed back by the parser: its identity, its parent's
/// identity, its byte range, and whether a parse error lies beneath it.
#[derive(Clone, Copy, Debug)]
pub struct RawNode {
    pub id: usize,
    pub parent_id: Option<usize>,
    pub start_byte: usize,
    pub end_byte: usize,
    pub has_error: bool,
}

/// Relies on `tree_sitter::Parser` (`new`, `set_language`, `parse`) and
/// `tree_sitter_traversal2::traverse` with preorder: parses `text` with the
/// grammar and lists every node of the tree in preorder, ancestors before
/// descendants, each with its id, parent id, byte range and error flag.
/// `None` when the grammar is rejected or parsing is cancelled.
#[verifier::external_body]
pub(crate) fn parse_raw_nodes(language: &tree_sitter::Language, text: &str) -> (res: Option<
    Vec<RawNode>,
>)
    ensures
        match res {
            Some(ns) => forall|i: int|
                0 <= i < ns@.len() ==> (#[trigger] ns@[i]).start_byte <= ns@[i].end_byte,
            None => true,
        },
{
    let mut parser = tree_sitter::Parser::new();
    parser.set_language(language).ok()?;
    let tree = parser.parse(text, None)?;
    let cursor = tree.root_node().walk();
    let nodes = tree_sitter_traversal2::traverse(cursor, tree_sitter_traversal2::Order::Pre).map(
        |n| RawNode {
            id: n.id(),
            parent_id: n.parent().map(|p| p.id()),
            start_byte: n.start_byte(),
            end_byte: n.end_byte(),
            has_error: n.has_error(),
        },
    ).collect();
    Some(nodes)
}

/// A validated node: byte range, index of the parent in the node list
/// (`None` only for the root), and the parse-error flag.
#[derive(Clone, Copy, Debug)]
pub struct SyntaxNode {
    pub start_byte: usize,
    pub end_byte: usize,
    pub parent: Option<usize>,
    pub has_error: bool,
}

/// Index of the first node among `ns[0..upto]` whose id is `pid`.
pub open spec fn first_id_match(ns: Seq<RawNode>, upto: int, pid: usize) -> Option<int>
    decreases upto,
{
    if upto <= 0 {
        None
    } else if first_id_match(ns, upto - 1, pid) is Some {
        first_id_match(ns, upto - 1, pid)
    } else if ns[upto - 1].id == pid {
        Some(upto - 1)
    } else {
        None
    }
}

/// A raw node is acceptable when its parent appears earlier in the list and
/// its range nests inside the parent's range.
pub open spec fn raw_node_ok(ns: Seq<RawNode>, i: int) -> bool {
    &&& ns[i].start_byte <= ns[i].end_byte
    &&& match ns[i].parent_id {
        Some(pid) => match first_id_match(ns, i, pid) {
            Some(j) => ns[j].start_byte <= ns[i].start_byte && ns[i].end_byte <= ns[j].end_byte,
            None => false,
        },
        None => false,
    }
}

/// A raw parse is acceptable when it is a preorder tree: a root first, and
/// every later node nested under an earlier parent.
pub open spec fn raw_tree_ok(ns: Seq<RawNode>) -> bool {
    &&& ns.len() >= 1
    &&& ns[0].parent_id is None
    &&& ns[0].start_byte <= ns[0].end_byte
    &&& forall|i: int| 1 <= i < ns.len() ==> raw_node_ok(ns, i)
}

/// The syntax tree of a buffer: nodes in preorder, each nested in its
/// parent.
pub struct SyntaxTree {
    pub nodes: Vec<SyntaxNode>,
}

impl SyntaxTree {
    pub open spec fn wf(self) -> bool {
        &&& self.nodes@.len() >= 1
        &&& self.nodes@[0].parent is None
        &&& forall|i: int|
            0 <= i < self.nodes@.len() ==> (#[trigger] self.nodes@[i]).start_byte
                <= self.nodes@[i].end_byte
        &&& forall|i: int|
            1 <= i < self.nodes@.len() ==> (#[trigger] self.nodes@[i]).parent is Some
        &&& forall|i: int|
            1 <= i < self.nodes@.len() ==> {
                let j = (#[trigger] self.nodes@[i]).parent->0 as int;
                &&& 0 <= j < i
                &&& self.nodes@[j].start_byte <= self.nodes@[i].start_byte
                &&& self.nodes@[i].end_byte <= self.nodes@[j].end_byte
            }
    }

    pub fn len(&self) -> (res: usize)
        ensures
            res == self.nodes@.len(),
    {
        self.nodes.len()
    }

    pub fn node(&self, i: usize) -> (res: SyntaxNode)
        requires
            i < self.nodes@.len(),
        ensures
            res == self.nodes@[i as int],
    {
        self.nodes[i]
    }

    /// Validate a raw parse into a tree. Succeeds exactly when the raw list
    /// is a preorder tree ([`raw_tree_ok`]); the resulting tree keeps every
    /// node's byte range and error flag, in order, and links each node to its
    /// first earlier parent.
    pub fn from_raw(raw: &Vec<RawNode>) -> (res: Option<SyntaxTree>)
        ensures
            res is Some <==> raw_tree_ok(raw@),
            match res {
                Some(t) => {
                    &&& t.wf()
                    &&& t.nodes@.len() == raw@.len()
                    &&& forall|i: int|
                        0 <= i < raw@.len() ==> (#[trigger] t.nodes@[i]).start_byte
                            == raw@[i].start_byte && t.nodes@[i].end_byte == raw@[i].end_byte
                            && t.nodes@[i].has_error == raw@[i].has_error
                },
                None => true,
            },
    {
        let n = raw.len();
        if n == 0 {
            return None;
        }
        let root = raw[0];
        if root.parent_id.is_some() || root.start_byte > root.end_byte {
            return None;
        }
        let mut nodes: Vec<SyntaxNode> = Vec::new();
        nodes.push(
            SyntaxNode {
                start_byte: root.start_byte,
                end_byte: root.end_byte,
                parent: None,
                has_error: root.has_error,
            },
        );
        let mut i: usize = 1;
        while i < n
            invariant
                1 <= i <= n == raw@.len(),
                nodes@.len() == i,
                raw@[0].parent_id is None,
                raw@[0].start_byte <= raw@[0].end_byte,
                forall|k: int| 1 <= k < i ==> raw_node_ok(raw@, k),
                nodes@[0].parent is None,
                forall|k: int|
                    0 <= k < i ==> (#[trigger] nodes@[k]).start_byte == raw@[k].start_byte
                        && nodes@[k].end_byte == raw@[k].end_byte && nodes@[k].has_error
                        == raw@[k].has_error,
                forall|k: int| 1 <= k < i ==> (#[trigger] nodes@[k]).parent is Some,
                forall|k: int|
                    1 <= k < i ==> {
                        let j = (#[trigger] nodes@[k]).parent->0 as int;
                        &&& 0 <= j < k
                        &&& nodes@[j].start_byte <= nodes@[k].start_byte
                        &&& nodes@[k].end_byte <= nodes@[j].end_byte
                    },
            decreases n - i,
        {
            let cur = raw[i];
            let pid = match cur.parent_id {
                Some(p) => p,
                None => {
                    proof {
                        assert(!raw_node_ok(raw@, i as int));
                    }
                    return None;
                },
            };
            if cur.start_byte > cur.end_byte {
                proof {
                    assert(!raw_node_ok(raw@, i as int));
                }
                return None;
            }
            // find the first earlier node with the parent's id
            let mut j: usize = 0;
            let mut parent_idx: Option<usize> = None;
            while j < i
                invariant
                    j <= i <= n == raw@.len(),
                    i < n,
                    pid == raw@[i as int].parent_id->0,
                    match parent_idx {
                        Some(pj) => pj < i && first_id_match(raw@, i as int, pid) == Some(
                            pj as int,
                        ),
                        None => first_id_match(raw@, j as int, pid) is None,
                    },
                decreases i - j + (if parent_idx is Some {
                    0int
                } else {
                    1int
                }),
            {
                if parent_idx.is_none() {
                    if raw[j].id == pid {
                        parent_idx = Some(j);
                        proof {
                            lemma_first_id_match_extend(raw@, j as int, i as int, pid);
                        }
                    }
                }
                j = j + 1;
            }
            let pj = match parent_idx {
                Some(p) => p,
                None => {
                    proof {
                        assert(!raw_node_ok(raw@, i as int));
                    }
                    return None;
                },
            };
            let pn = nodes[pj];
            if pn.start_byte > cur.start_byte || cur.end_byte > pn.end_byte {
                proof {
                    assert(!raw_node_ok(raw@, i as int));
                }
                return None;
            }
            nodes.push(
                SyntaxNode {
                    start_byte: cur.start_byte,
                    end_byte: cur.end_byte,
                    parent: Some(pj),
                    has_error: cur.has_error,
                },
            );
            i = i + 1;
        }
        let t = SyntaxTree { nodes };
        proof {
            assert forall|k: int|
                0 <= k < t.nodes@.len() implies (#[trigger] t.nodes@[k]).start_byte
                <= t.nodes@[k].end_byte by {
                if k >= 1 {
                    assert(raw_node_ok(raw@, k));
                    assert(t.nodes@[k].start_byte == raw@[k].start_byte);
                }
            }
            assert(t.wf());
            assert(raw_tree_ok(raw@));
        }
        Some(t)
    }

    /// The deepest node covering the byte range `[start, end)`: covering
    /// nodes lie on one ancestor chain, so in preorder the last covering node
    /// is the deepest.
    pub fn deepest_covering(&self, start_byte: usize, end_byte: usize) -> (res: Option<usize>)
        ensures
            match res {
                Some(i) => Some(i as int) == deepest_covering_spec(
                    self.nodes@,
                    start_byte as int,
                    end_byte as int,
                ) && i < self.nodes@.len(),
                None => deepest_covering_spec(
                    self.nodes@,
                    start_byte as int,
                    end_byte as int,
                ) is None,
            },
    {
        let n = self.nodes.len();
        let mut i: usize = n;
        proof {
            assert(self.nodes@.take(n as int) =~= self.nodes@);
        }
        while i > 0
            invariant
                i <= n == self.nodes@.len(),
                deepest_covering_spec(self.nodes@, start_byte as int, end_byte as int)
                    == deepest_covering_spec(
                    self.nodes@.take(i as int),
                    start_byte as int,
                    end_byte as int,
                ),
            decreases i,
        {
            i = i - 1;
            proof {
                assert(self.nodes@.take(i + 1).drop_last() =~= self.nodes@.take(i as int));
                assert(self.nodes@.take(i + 1).last() == self.nodes@[i as int]);
            }
            let nd = self.nodes[i];
            if nd.start_byte <= start_byte && end_byte <= nd.end_byte {
                return Some(i);
            }
        }
        proof {
            assert(self.nodes@.take(0) =~= Seq::<SyntaxNode>::empty());
        }
        None
    }

    /// The first node in preorder whose start byte is at or after `byte`.
    pub fn nearest_node_at_or_after_byte(&self, byte: usize) -> (res: Option<usize>)
        ensures
            match res {
                Some(i) => {
                    &&& Some(i as int) == nearest_from(self.nodes@, 0, byte as int)
                    &&& i < self.nodes@.len()
                    &&& self.nodes@[i as int].start_byte >= byte
                    &&& forall|j: int|
                        0 <= j < i ==> (#[trigger] self.nodes@[j]).start_byte < byte
                },
                None => nearest_from(self.nodes@, 0, byte as int) is None && forall|j: int|
                    0 <= j < self.nodes@.len() ==> (#[trigger] self.nodes@[j]).start_byte < byte,
            },
    {
        let n = self.nodes.len();
        let mut i: usize = 0;
        while i < n
            invariant
                i <= n == self.nodes@.len(),
                nearest_from(self.nodes@, 0, byte as int) == nearest_from(
                    self.nodes@,
                    i as int,
                    byte as int,
                ),
                forall|j: int| 0 <= j < i ==> (#[trigger] self.nodes@[j]).start_byte < byte,
            decreases n - i,
        {
            if self.nodes[i].start_byte >= byte {
                return Some(i);
            }
            i = i + 1;
        }
        None
    }
}

/// The deepest (last in preorder) node covering the byte range
/// `[b1, b2)`, if any: covering nodes form one ancestor chain, so the last
/// one in preorder is the deepest.
pub open spec fn deepest_covering_spec(ns: Seq<SyntaxNode>, b1: int, b2: int) -> Option<int>
    decreases ns.len(),
{
    if ns.len() == 0 {
        None
    } else if ns.last().start_byte <= b1 && b2 <= ns.last().end_byte {
        Some(ns.len() - 1)
    } else {
        deepest_covering_spec(ns.drop_last(), b1, b2)
    }
}

/// The promotion walk of the current-node query: starting from `cur`, climb
/// while the parent shares the base node's start byte, is not the root, and
/// (unless the query asked for the largest end) shares the base node's end
/// byte; when the walk climbs off the top, it falls back to the base node.
pub open spec fn promote_spec(
    ns: Seq<SyntaxNode>,
    base: int,
    cur: int,
    largest: bool,
) -> int
    decreases cur,
{
    if 0 <= cur < ns.len() && 0 <= base < ns.len() {
        match ns[cur].parent {
            Some(p) => if 0 <= p < cur {
                if ns[p as int].start_byte == ns[base].start_byte && p != 0 && (largest
                    || ns[base].end_byte == ns[p as int].end_byte) {
                    promote_spec(ns, base, p as int, largest)
                } else {
                    cur
                }
            } else {
                cur
            },
            None => base,
        }
    } else {
        cur
    }
}

/// The first node at or after index `k` whose start byte is at least `b`.
pub open spec fn nearest_from(ns: Seq<SyntaxNode>, k: int, b: int) -> Option<int>
    decreases ns.len() - k,
{
    if k < 0 || k >= ns.len() {
        None
    } else if ns[k].start_byte >= b {
        Some(k)
    } else {
        nearest_from(ns, k + 1, b)
    }
}

/// Extending the scanned prefix past a fresh match fixes the match.
proof fn lemma_first_id_match_extend(ns: Seq<RawNode>, j: int, upto: int, pid: usize)
    requires
        0 <= j < upto <= ns.len(),
        first_id_match(ns, j, pid) is None,
        ns[j].id == pid,
    ensures
        first_id_match(ns, upto, pid) == Some(j),
    decreases upto,
{
    if upto == j + 1 {
    } else {
        lemma_first_id_match_extend(ns, j, upto - 1, pid);
    }
}

} // verus!
