use vstd::prelude::*;
use crate::chars::{trim_end, trim_end_spec};

verus! {

/// Tree of scanned source files: one node per inclusion site, holding the
/// file's own output lines and the children spliced between them.
#[derive(Debug)]
pub struct Node {
    name: String,
    lines: Vec<String>,
    children: Vec<(Node, usize)>,
}

impl Node {
    /// The canonical name of the file this node was built from.
    pub closed spec fn name_spec(&self) -> Seq<char> {
        self.name@
    }

    /// The node's own logical lines, one per scanned input line.
    pub closed spec fn lines_spec(&self) -> Seq<Seq<char>> {
        self.lines.deep_view()
    }

    /// The spliced children, each with the index of the line slot it
    /// follows.
    pub closed spec fn children_spec(&self) -> Seq<(Node, int)> {
        Seq::new(self.children@.len(), |i: int| (self.children@[i].0, self.children@[i].1 as int))
    }
}

/// Well-formedness of the children list from position `j` on: splice
/// positions are strictly increasing line slots, and every child is
/// itself well formed.
pub open spec fn children_wf(n: Node, j: int) -> bool
    decreases n, n.children_spec().len() - j,
{
    j >= n.children_spec().len() || j < 0 || {
        let c = n.children_spec()[j].0;
        let pos = n.children_spec()[j].1;
        0 <= pos < n.lines_spec().len() && (j == 0 || n.children_spec()[j - 1].1 < pos)
            && node_wf(c) && children_wf(n, j + 1)
    }
}

/// A well-formed output tree.
pub open spec fn node_wf(n: Node) -> bool
    decreases n,
{
    children_wf(n, 0)
}

/// The flattened output lines contributed by `n` from child `j` on, the
/// previous splice point having ended just before line slot `ppos`.
pub open spec fn flat_children(n: Node, j: int, ppos: int) -> Seq<Seq<char>>
    decreases n, n.children_spec().len() - j,
{
    if j < 0 || j >= n.children_spec().len() {
        n.lines_spec().subrange(ppos, n.lines_spec().len() as int)
    } else {
        let c = n.children_spec()[j].0;
        let pos = n.children_spec()[j].1;
        n.lines_spec().subrange(ppos, pos + 1) + node_flat(c) + flat_children(n, j + 1, pos + 1)
    }
}

/// All output lines of the flattened tree, in order.
pub open spec fn node_flat(n: Node) -> Seq<Seq<char>>
    decreases n,
{
    flat_children(n, 0, 0)
}

/// The origin of each output line from child `j` on: the owning file's
/// name and the local line number within it.
pub open spec fn orig_children(n: Node, j: int, ppos: int) -> Seq<(Seq<char>, int)>
    decreases n, n.children_spec().len() - j,
{
    if j < 0 || j >= n.children_spec().len() {
        Seq::new((n.lines_spec().len() - ppos) as nat, |k: int| (n.name_spec(), ppos + k))
    } else {
        let c = n.children_spec()[j].0;
        let pos = n.children_spec()[j].1;
        Seq::new((pos + 1 - ppos) as nat, |k: int| (n.name_spec(), ppos + k)) + node_orig(c)
            + orig_children(n, j + 1, pos + 1)
    }
}

/// The origin of every output line of the flattened tree, in order.
pub open spec fn node_orig(n: Node) -> Seq<(Seq<char>, int)>
    decreases n,
{
    orig_children(n, 0, 0)
}

/// Flattened lines and their origins go in step.
pub proof fn lemma_flat_orig_len(n: Node)
    requires
        node_wf(n),
    ensures
        node_flat(n).len() == node_orig(n).len(),
    decreases n,
{
    lemma_flat_orig_len_children(n, 0, 0);
}

pub proof fn lemma_flat_orig_len_children(n: Node, j: int, ppos: int)
    requires
        0 <= j,
        0 <= ppos <= n.lines_spec().len(),
        j < n.children_spec().len() ==> ppos <= n.children_spec()[j].1 + 1,
        children_wf(n, j),
    ensures
        flat_children(n, j, ppos).len() == orig_children(n, j, ppos).len(),
    decreases n, n.children_spec().len() - j,
{
    if 0 <= j < n.children_spec().len() {
        let c = n.children_spec()[j].0;
        let pos = n.children_spec()[j].1;
        assert(children_wf(n, j + 1));
        if j + 1 < n.children_spec().len() {
            assert(n.children_spec()[j].1 < n.children_spec()[j + 1].1);
        }
        lemma_flat_orig_len(c);
        lemma_flat_orig_len_children(n, j + 1, pos + 1);
    }
}

impl Node {
    pub(crate) fn new(name: &str) -> (r: Node)
        ensures
            r.name_spec() == name@,
            r.lines_spec() == Seq::<Seq<char>>::empty(),
            r.children_spec() == Seq::<(Node, int)>::empty(),
            node_wf(r),
    {
        let r = Node { name: name.to_owned(), lines: Vec::new(), children: Vec::new() };
        proof {
            assert(r.lines_spec() =~= Seq::<Seq<char>>::empty());
            assert(r.children_spec() =~= Seq::<(Node, int)>::empty());
        }
        r
    }

    pub fn name(&self) -> (r: &str)
        ensures
            r@ == self.name_spec(),
    {
        self.name.as_str()
    }

    /// How many logical line slots this node itself holds.
    pub fn lines_count(&self) -> (r: usize)
        ensures
            r == self.lines_spec().len(),
    {
        self.lines.len()
    }

    /// Appends one literal output line; what is stored is the line with
    /// its trailing white space removed.
    pub(crate) fn add_line(&mut self, line: &str)
        ensures
            final(self).name_spec() == old(self).name_spec(),
            final(self).lines_spec() == old(self).lines_spec().push(trim_end_spec(line@)),
            final(self).children_spec() == old(self).children_spec(),
    {
        let t = trim_end(line);
        self.lines.push(t);
        proof {
            assert(self.lines_spec() =~= old(self).lines_spec().push(trim_end_spec(line@)));
            assert(self.children_spec() =~= old(self).children_spec());
        }
    }

    /// Appends a blank placeholder line slot and splices `node` at it.
    pub(crate) fn add_child(&mut self, node: Node)
        ensures
            final(self).name_spec() == old(self).name_spec(),
            final(self).lines_spec() == old(self).lines_spec().push(Seq::<char>::empty()),
            final(self).children_spec() == old(self).children_spec().push(
                (node, old(self).lines_spec().len() as int),
            ),
    {
        self.lines.push(String::new());
        let pos = self.lines.len() - 1;
        self.children.push((node, pos));
        proof {
            assert(self.lines_spec() =~= old(self).lines_spec().push(Seq::<char>::empty()));
            assert(self.children_spec() =~= old(self).children_spec().push(
                (node, old(self).lines_spec().len() as int),
            ));
        }
    }
}

/// Appending a literal line extends the flattened output by that line,
/// and its origin by the next local line of this node.
pub proof fn lemma_flat_add_line(a: Node, b: Node, l: Seq<char>)
    requires
        b.name_spec() == a.name_spec(),
        b.children_spec() == a.children_spec(),
        b.lines_spec() == a.lines_spec().push(l),
        node_wf(a),
    ensures
        node_flat(b) == node_flat(a).push(l),
        node_orig(b) == node_orig(a).push((a.name_spec(), a.lines_spec().len() as int)),
{
    lemma_flat_children_add_line(a, b, l, 0, 0);
}

proof fn lemma_flat_children_add_line(a: Node, b: Node, l: Seq<char>, j: int, ppos: int)
    requires
        b.name_spec() == a.name_spec(),
        b.children_spec() == a.children_spec(),
        b.lines_spec() == a.lines_spec().push(l),
        children_wf(a, j),
        0 <= j,
        0 <= ppos <= a.lines_spec().len(),
        j < a.children_spec().len() ==> ppos <= a.children_spec()[j].1 + 1,
    ensures
        flat_children(b, j, ppos) == flat_children(a, j, ppos).push(l),
        orig_children(b, j, ppos) == orig_children(a, j, ppos).push(
            (a.name_spec(), a.lines_spec().len() as int),
        ),
    decreases a.children_spec().len() - j,
{
    let alen = a.lines_spec().len() as int;
    if j >= a.children_spec().len() {
        assert(b.lines_spec().subrange(ppos, alen + 1) =~= a.lines_spec().subrange(
            ppos,
            alen,
        ).push(l));
        assert(orig_children(b, j, ppos) =~= orig_children(a, j, ppos).push(
            (a.name_spec(), alen),
        ));
    } else {
        let c = a.children_spec()[j].0;
        let pos = a.children_spec()[j].1;
        assert(children_wf(a, j + 1));
        if j + 1 < a.children_spec().len() {
            assert(a.children_spec()[j].1 < a.children_spec()[j + 1].1);
        }
        lemma_flat_children_add_line(a, b, l, j + 1, pos + 1);
        assert(b.lines_spec().subrange(ppos, pos + 1) =~= a.lines_spec().subrange(
            ppos,
            pos + 1,
        ));
        assert(flat_children(b, j, ppos) =~= flat_children(a, j, ppos).push(l));
        assert(orig_children(b, j, ppos) =~= orig_children(a, j, ppos).push(
            (a.name_spec(), alen),
        ));
    }
}

/// Splicing a child appends one blank placeholder line and then the
/// child's own flattened output.
pub proof fn lemma_flat_add_child(a: Node, b: Node, c: Node)
    requires
        b.name_spec() == a.name_spec(),
        b.children_spec() == a.children_spec().push((c, a.lines_spec().len() as int)),
        b.lines_spec() == a.lines_spec().push(Seq::<char>::empty()),
        node_wf(a),
    ensures
        node_flat(b) == node_flat(a).push(Seq::<char>::empty()) + node_flat(c),
        node_orig(b) == node_orig(a).push((a.name_spec(), a.lines_spec().len() as int))
            + node_orig(c),
{
    lemma_flat_children_add_child(a, b, c, 0, 0);
}

proof fn lemma_flat_children_add_child(a: Node, b: Node, c: Node, j: int, ppos: int)
    requires
        b.name_spec() == a.name_spec(),
        b.children_spec() == a.children_spec().push((c, a.lines_spec().len() as int)),
        b.lines_spec() == a.lines_spec().push(Seq::<char>::empty()),
        children_wf(a, j),
        0 <= j <= a.children_spec().len(),
        0 <= ppos <= a.lines_spec().len(),
        j < a.children_spec().len() ==> ppos <= a.children_spec()[j].1 + 1,
    ensures
        flat_children(b, j, ppos) == flat_children(a, j, ppos).push(Seq::<char>::empty())
            + node_flat(c),
        orig_children(b, j, ppos) == orig_children(a, j, ppos).push(
            (a.name_spec(), a.lines_spec().len() as int),
        ) + node_orig(c),
    decreases a.children_spec().len() - j,
{
    let alen = a.lines_spec().len() as int;
    if j == a.children_spec().len() {
        // The appended child is the one at position `j` of `b`.
        assert(b.children_spec()[j] == (c, alen));
        assert(b.lines_spec().subrange(ppos, alen + 1) =~= a.lines_spec().subrange(
            ppos,
            alen,
        ).push(Seq::<char>::empty()));
        assert(b.lines_spec().subrange(alen + 1, alen + 1) =~= Seq::<Seq<char>>::empty());
        assert(flat_children(b, j + 1, alen + 1) =~= Seq::<Seq<char>>::empty());
        assert(flat_children(b, j, ppos) =~= flat_children(a, j, ppos).push(
            Seq::<char>::empty(),
        ) + node_flat(c));
        assert(orig_children(b, j + 1, alen + 1) =~= Seq::<(Seq<char>, int)>::empty());
        assert(orig_children(b, j, ppos) =~= orig_children(a, j, ppos).push(
            (a.name_spec(), alen),
        ) + node_orig(c));
    } else {
        let pos = a.children_spec()[j].1;
        assert(b.children_spec()[j] == a.children_spec()[j]);
        assert(children_wf(a, j + 1));
        if j + 1 < a.children_spec().len() {
            assert(a.children_spec()[j].1 < a.children_spec()[j + 1].1);
        }
        lemma_flat_children_add_child(a, b, c, j + 1, pos + 1);
        assert(b.lines_spec().subrange(ppos, pos + 1) =~= a.lines_spec().subrange(
            ppos,
            pos + 1,
        ));
        assert(flat_children(b, j, ppos) =~= flat_children(a, j, ppos).push(
            Seq::<char>::empty(),
        ) + node_flat(c));
        assert(orig_children(b, j, ppos) =~= orig_children(a, j, ppos).push(
            (a.name_spec(), alen),
        ) + node_orig(c));
    }
}

/// Appending a line slot keeps the children list well formed.
pub proof fn lemma_children_wf_lines_grow(a: Node, b: Node, j: int)
    requires
        a.children_spec() == b.children_spec(),
        a.lines_spec().len() <= b.lines_spec().len(),
        children_wf(a, j),
    ensures
        children_wf(b, j),
    decreases a.children_spec().len() - j,
{
    if 0 <= j < a.children_spec().len() {
        lemma_children_wf_lines_grow(a, b, j + 1);
    }
}

/// `add_line` leaves the tree well formed.
pub proof fn lemma_wf_add_line(a: Node, b: Node)
    requires
        a.children_spec() == b.children_spec(),
        a.lines_spec().len() <= b.lines_spec().len(),
        node_wf(a),
    ensures
        node_wf(b),
{
    lemma_children_wf_lines_grow(a, b, 0);
}

/// `add_child` leaves the tree well formed.
pub proof fn lemma_wf_add_child(a: Node, b: Node, c: Node)
    requires
        b.children_spec() == a.children_spec().push((c, a.lines_spec().len() as int)),
        b.lines_spec().len() == a.lines_spec().len() + 1,
        node_wf(a),
        node_wf(c),
    ensures
        node_wf(b),
{
    lemma_children_wf_add_child(a, b, c, 0);
}

proof fn lemma_children_wf_add_child(a: Node, b: Node, c: Node, j: int)
    requires
        b.children_spec() == a.children_spec().push((c, a.lines_spec().len() as int)),
        b.lines_spec().len() == a.lines_spec().len() + 1,
        children_wf(a, j),
        node_wf(c),
        0 <= j <= a.children_spec().len(),
        j > 0 ==> a.children_spec()[j - 1].1 < a.lines_spec().len(),
    ensures
        children_wf(b, j),
    decreases a.children_spec().len() - j,
{
    let alen = a.children_spec().len() as int;
    if j < alen {
        lemma_children_wf_add_child(a, b, c, j + 1);
    } else {
        // j == alen: the appended child stands last; its slot is the new
        // final line, after every earlier splice position.
        assert(children_wf(b, j + 1));
    }
}

/// The flattened text: every output line followed by a line feed.
pub open spec fn join_flat(ls: Seq<Seq<char>>) -> Seq<char>
    decreases ls.len(),
{
    if ls.len() == 0 {
        Seq::empty()
    } else {
        join_flat(ls.drop_last()) + ls.last() + seq!['\n']
    }
}

pub proof fn lemma_join_concat(a: Seq<Seq<char>>, b: Seq<Seq<char>>)
    ensures
        join_flat(a + b) == join_flat(a) + join_flat(b),
    decreases b.len(),
{
    if b.len() == 0 {
        assert(a + b =~= a);
        assert(join_flat(a) + join_flat(b) =~= join_flat(a));
    } else {
        lemma_join_concat(a, b.drop_last());
        assert((a + b).drop_last() =~= a + b.drop_last());
        assert((a + b).last() == b.last());
        assert(join_flat(a) + (join_flat(b.drop_last()) + b.last() + seq!['\n']) =~= join_flat(
            a,
        ) + join_flat(b.drop_last()) + b.last() + seq!['\n']);
    }
}

/// One segment of the index: an output line range `[lo, hi)` owned by one
/// file, whose local lines start at `start`.
pub struct SegV {
    pub name: Seq<char>,
    pub start: int,
    pub lo: int,
    pub hi: int,
}

/// Mapping an output line to its origin: the first segment whose range
/// holds the position wins; the ranges never overlap.
pub open spec fn seg_lookup(segs: Seq<SegV>, pos: int) -> Option<(Seq<char>, int)>
    decreases segs.len(),
{
    if segs.len() == 0 {
        None
    } else if segs[0].lo <= pos < segs[0].hi {
        Some((segs[0].name, pos - segs[0].lo + segs[0].start))
    } else {
        seg_lookup(segs.skip(1), pos)
    }
}

/// The segments stand back to back, starting at `lo0`, each one nonempty.
pub open spec fn chain_from(segs: Seq<SegV>, lo0: int) -> bool
    decreases segs.len(),
{
    segs.len() == 0 || {
        segs[0].lo == lo0 && segs[0].lo < segs[0].hi && chain_from(segs.skip(1), segs[0].hi)
    }
}

/// Where the chain ends: the first free output line.
pub open spec fn chain_end(segs: Seq<SegV>, lo0: int) -> int
    decreases segs.len(),
{
    if segs.len() == 0 {
        lo0
    } else {
        chain_end(segs.skip(1), segs[0].hi)
    }
}

pub proof fn lemma_chain_end_ge(segs: Seq<SegV>, lo0: int)
    requires
        chain_from(segs, lo0),
    ensures
        chain_end(segs, lo0) >= lo0,
    decreases segs.len(),
{
    if segs.len() > 0 {
        lemma_chain_end_ge(segs.skip(1), segs[0].hi);
    }
}

pub proof fn lemma_chain_push(segs: Seq<SegV>, s: SegV, lo0: int)
    requires
        chain_from(segs, lo0),
        s.lo == chain_end(segs, lo0),
        s.lo < s.hi,
    ensures
        chain_from(segs.push(s), lo0),
        chain_end(segs.push(s), lo0) == s.hi,
    decreases segs.len(),
{
    if segs.len() == 0 {
        assert(segs.push(s)[0] == s);
        assert(segs.push(s).skip(1) =~= Seq::<SegV>::empty());
        assert(chain_from(Seq::<SegV>::empty(), s.hi));
        assert(chain_end(Seq::<SegV>::empty(), s.hi) == s.hi);
        assert(chain_end(segs.push(s), lo0) == chain_end(segs.push(s).skip(1), s.hi));
    } else {
        assert(chain_end(segs, lo0) == chain_end(segs.skip(1), segs[0].hi));
        lemma_chain_push(segs.skip(1), s, segs[0].hi);
        assert(segs.push(s)[0] == segs[0]);
        assert(segs.push(s).skip(1) =~= segs.skip(1).push(s));
        assert(chain_end(segs.push(s), lo0) == chain_end(segs.skip(1).push(s), segs[0].hi));
    }
}

/// A position below the pushed segment is looked up as before; one inside
/// it is attributed to it.
pub proof fn lemma_lookup_push(segs: Seq<SegV>, s: SegV, lo0: int, pos: int)
    requires
        chain_from(segs, lo0),
        s.lo == chain_end(segs, lo0),
    ensures
        pos < s.lo ==> seg_lookup(segs.push(s), pos) == seg_lookup(segs, pos),
        s.lo <= pos < s.hi ==> seg_lookup(segs.push(s), pos) == Some(
            (s.name, pos - s.lo + s.start),
        ),
    decreases segs.len(),
{
    if segs.len() == 0 {
        assert(segs.push(s)[0] == s);
        assert(segs.push(s).skip(1) =~= Seq::<SegV>::empty());
        assert(seg_lookup(Seq::<SegV>::empty(), pos) == None::<(Seq<char>, int)>);
        if s.lo <= pos < s.hi {
            assert(seg_lookup(segs.push(s), pos) == Some((s.name, pos - s.lo + s.start)));
        }
    } else {
        assert(chain_end(segs, lo0) == chain_end(segs.skip(1), segs[0].hi));
        lemma_chain_end_ge(segs.skip(1), segs[0].hi);
        lemma_lookup_push(segs.skip(1), s, segs[0].hi, pos);
        assert(segs.push(s).skip(1) =~= segs.skip(1).push(s));
        assert(segs.push(s)[0] == segs[0]);
        if segs[0].lo <= pos < segs[0].hi {
        } else {
            assert(seg_lookup(segs.push(s), pos) == seg_lookup(segs.skip(1).push(s), pos));
            assert(seg_lookup(segs, pos) == seg_lookup(segs.skip(1), pos));
        }
    }
}

/// Looking up across a concatenation: a position before the first chain's
/// end stays in it, a later one falls to the second part.
pub proof fn lemma_lookup_concat(xs: Seq<SegV>, ys: Seq<SegV>, lo0: int, pos: int)
    requires
        chain_from(xs, lo0),
        lo0 <= pos,
    ensures
        pos < chain_end(xs, lo0) ==> seg_lookup(xs + ys, pos) == seg_lookup(xs, pos),
        pos >= chain_end(xs, lo0) ==> seg_lookup(xs + ys, pos) == seg_lookup(ys, pos),
    decreases xs.len(),
{
    if xs.len() == 0 {
        assert(xs + ys =~= ys);
    } else {
        lemma_chain_end_ge(xs.skip(1), xs[0].hi);
        assert((xs + ys)[0] == xs[0]);
        if xs[0].lo <= pos < xs[0].hi {
        } else {
            lemma_lookup_concat(xs.skip(1), ys, xs[0].hi, pos);
            assert((xs + ys).skip(1) =~= xs.skip(1) + ys);
        }
    }
}

/// Shifting a chain of segments by a fixed offset.
pub open spec fn seg_shift(segs: Seq<SegV>, d: int) -> Seq<SegV> {
    Seq::new(
        segs.len(),
        |i: int|
            SegV {
                name: segs[i].name,
                start: segs[i].start,
                lo: segs[i].lo + d,
                hi: segs[i].hi + d,
            },
    )
}

pub proof fn lemma_chain_shift(segs: Seq<SegV>, lo0: int, d: int)
    requires
        chain_from(segs, lo0),
    ensures
        chain_from(seg_shift(segs, d), lo0 + d),
        chain_end(seg_shift(segs, d), lo0 + d) == chain_end(segs, lo0) + d,
    decreases segs.len(),
{
    if segs.len() > 0 {
        lemma_chain_shift(segs.skip(1), segs[0].hi, d);
        assert(seg_shift(segs, d).skip(1) =~= seg_shift(segs.skip(1), d));
    }
}

/// A shifted chain attributes position `pos` as the original chain
/// attributes `pos - d`: the payload carries over unchanged.
pub proof fn lemma_lookup_shift(segs: Seq<SegV>, d: int, pos: int)
    ensures
        seg_lookup(seg_shift(segs, d), pos) == seg_lookup(segs, pos - d),
    decreases segs.len(),
{
    if segs.len() > 0 {
        lemma_lookup_shift(segs.skip(1), d, pos);
        assert(seg_shift(segs, d).skip(1) =~= seg_shift(segs.skip(1), d));
        assert(seg_shift(segs, d)[0] == SegV {
            name: segs[0].name,
            start: segs[0].start,
            lo: segs[0].lo + d,
            hi: segs[0].hi + d,
        });
    }
}

struct IndexEntry {
    name: String,
    start: usize,
    lo: usize,
    hi: usize,
}

/// Index that maps every line of the flattened output back to the file
/// and local line it came from.
pub struct Index {
    segs: Vec<IndexEntry>,
    size: usize,
}

impl View for Index {
    type V = Seq<SegV>;

    closed spec fn view(&self) -> Seq<SegV> {
        Seq::new(
            self.segs@.len(),
            |i: int|
                SegV {
                    name: self.segs@[i].name@,
                    start: self.segs@[i].start as int,
                    lo: self.segs@[i].lo as int,
                    hi: self.segs@[i].hi as int,
                },
        )
    }
}

impl Index {
    /// How many output lines the index covers.
    pub closed spec fn size_spec(&self) -> int {
        self.size as int
    }

    /// Contiguous nonempty segments covering `[0, size)`, each with room
    /// for its local line arithmetic.
    pub open spec fn wf(&self) -> bool {
        chain_from(self@, 0) && self.size_spec() == chain_end(self@, 0) && (forall|i: int|
            0 <= i < self@.len() ==> (#[trigger] self@[i]).start + (self@[i].hi - self@[i].lo)
                <= usize::MAX && self@[i].start >= 0)
    }

    pub(crate) fn new() -> (r: Index)
        ensures
            r.wf(),
            r@ == Seq::<SegV>::empty(),
            r.size_spec() == 0,
    {
        let r = Index { segs: Vec::new(), size: 0 };
        proof {
            assert(r@ =~= Seq::<SegV>::empty());
        }
        r
    }

    pub(crate) fn push(&mut self, name: &str, start: usize, size: usize)
        requires
            old(self).wf(),
            size >= 1,
            old(self).size_spec() + size <= usize::MAX,
            start + size <= usize::MAX,
        ensures
            final(self).wf(),
            final(self)@ == old(self)@.push(
                SegV {
                    name: name@,
                    start: start as int,
                    lo: old(self).size_spec(),
                    hi: old(self).size_spec() + size,
                },
            ),
            final(self).size_spec() == old(self).size_spec() + size,
    {
        let ghost before = self@;
        let ghost s = SegV {
            name: name@,
            start: start as int,
            lo: self.size as int,
            hi: self.size as int + size,
        };
        let lo = self.size;
        self.segs.push(IndexEntry { name: name.to_owned(), start, lo, hi: lo + size });
        self.size = lo + size;
        proof {
            assert(self@ =~= before.push(s));
            lemma_chain_push(before, s, 0);
            assert(forall|i: int|
                0 <= i < before.len() ==> self@[i] == before[i]);
        }
    }

    pub(crate) fn append(&mut self, other: Index)
        requires
            old(self).wf(),
            other.wf(),
            old(self).size_spec() + other.size_spec() <= usize::MAX,
        ensures
            final(self).wf(),
            final(self)@ == old(self)@ + seg_shift(other@, old(self).size_spec()),
            final(self).size_spec() == old(self).size_spec() + other.size_spec(),
    {
        let base = self.size;
        let ghost before = self@;
        let ghost shifted = seg_shift(other@, base as int);
        proof {
            lemma_chain_end_ge(other@, 0);
            lemma_seg_his_bounded(other@, 0, other.size_spec());
        }
        let n = other.segs.len();
        let mut i: usize = 0;
        proof {
            assert(other@.len() == n);
            assert(self@ =~= before + shifted.take(0));
        }
        while i < n
            invariant
                0 <= i <= n,
                n == other@.len(),
                base as int + other.size_spec() <= usize::MAX,
                other.wf(),
                shifted == seg_shift(other@, base as int),
                self@ =~= before + shifted.take(i as int),
                self.size == base,
                forall|k: int|
                    0 <= k < n ==> 0 <= (#[trigger] other@[k]).lo <= other@[k].hi
                        <= other.size_spec(),
            decreases n - i,
        {
            let e = &other.segs[i];
            proof {
                assert(other@[i as int] == SegV {
                    name: other.segs@[i as int].name@,
                    start: other.segs@[i as int].start as int,
                    lo: other.segs@[i as int].lo as int,
                    hi: other.segs@[i as int].hi as int,
                });
            }
            let nm = e.name.clone();
            let ghost pre = self@;
            self.segs.push(
                IndexEntry { name: nm, start: e.start, lo: base + e.lo, hi: base + e.hi },
            );
            proof {
                assert(self@.len() == pre.len() + 1);
                assert(forall|k: int| 0 <= k < pre.len() ==> self@[k] == pre[k]);
                assert(self@[pre.len() as int] == shifted[i as int]);
                assert(shifted.take(i + 1) =~= shifted.take(i as int).push(shifted[i as int]));
                assert(self@ =~= pre.push(shifted[i as int]));
                assert(pre.push(shifted[i as int]) =~= before + shifted.take(i + 1));
                assert(self@ =~= before + shifted.take(i + 1));
            }
            i += 1;
        }
        self.size = base + other.size;
        proof {
            assert(shifted.take(n as int) =~= shifted);
            lemma_chain_shift(other@, 0, base as int);
            lemma_chain_concat(before, shifted, 0, base as int);
            assert(forall|k: int|
                0 <= k < shifted.len() ==> (#[trigger] self@[before.len() + k]) == shifted[k]);
            assert(forall|k: int|
                0 <= k < before.len() ==> (#[trigger] self@[k]) == before[k]);
            assert(forall|i2: int|
                0 <= i2 < self@.len() ==> (#[trigger] self@[i2]).start + (self@[i2].hi
                    - self@[i2].lo) <= usize::MAX && self@[i2].start >= 0) by {
                assert(forall|k: int|
                    0 <= k < shifted.len() ==> (#[trigger] shifted[k]).start == other@[k].start
                        && shifted[k].hi - shifted[k].lo == other@[k].hi - other@[k].lo);
            }
        }
    }
}

/// Every segment of a chain ends at or before the chain's end.
pub proof fn lemma_seg_his_bounded(segs: Seq<SegV>, lo0: int, end: int)
    requires
        chain_from(segs, lo0),
        end == chain_end(segs, lo0),
        lo0 >= 0,
    ensures
        forall|k: int| 0 <= k < segs.len() ==> 0 <= (#[trigger] segs[k]).lo <= segs[k].hi <= end,
    decreases segs.len(),
{
    if segs.len() > 0 {
        lemma_chain_end_ge(segs.skip(1), segs[0].hi);
        lemma_seg_his_bounded(segs.skip(1), segs[0].hi, end);
        assert(forall|k: int|
            1 <= k < segs.len() ==> segs[k] == segs.skip(1)[k - 1]);
    }
}

/// Gluing a second chain right after a first one.
pub proof fn lemma_chain_concat(xs: Seq<SegV>, ys: Seq<SegV>, lo0: int, mid: int)
    requires
        chain_from(xs, lo0),
        mid == chain_end(xs, lo0),
        chain_from(ys, mid),
    ensures
        chain_from(xs + ys, lo0),
        chain_end(xs + ys, lo0) == chain_end(ys, mid),
    decreases xs.len(),
{
    if xs.len() == 0 {
        assert(xs + ys =~= ys);
    } else {
        lemma_chain_concat(xs.skip(1), ys, xs[0].hi, mid);
        assert((xs + ys)[0] == xs[0]);
        assert((xs + ys).skip(1) =~= xs.skip(1) + ys);
    }
}

impl Node {
    fn push_lines(&self, accum: &mut String, a: usize, b: usize)
        requires
            a <= b <= self.lines_spec().len(),
        ensures
            final(accum)@ == old(accum)@ + join_flat(
                self.lines_spec().subrange(a as int, b as int),
            ),
    {
        let ghost base = accum@;
        proof {
            reveal_strlit("\n");
            assert(("\n")@ =~= seq!['\n']);
            assert(self.lines_spec().subrange(a as int, a as int) =~= Seq::<Seq<char>>::empty());
            assert(base + join_flat(self.lines_spec().subrange(a as int, a as int)) =~= base);
        }
        let mut t = a;
        while t < b
            invariant
                a <= t <= b,
                b <= self.lines_spec().len(),
                b <= self.lines@.len(),
                ("\n")@ == seq!['\n'],
                accum@ == base + join_flat(self.lines_spec().subrange(a as int, t as int)),
            decreases b - t,
        {
            accum.append(self.lines[t].as_str());
            accum.append("\n");
            proof {
                let sub1 = self.lines_spec().subrange(a as int, t + 1);
                assert(sub1.drop_last() =~= self.lines_spec().subrange(a as int, t as int));
                assert(sub1.last() == self.lines_spec()[t as int]);
                assert(self.lines_spec()[t as int] == self.lines@[t as int]@);
                assert(accum@ =~= base + join_flat(sub1));
            }
            t += 1;
        }
    }

    /// Flattens the tree: the full output text, each line closed by a
    /// line feed, together with the index that maps every output line
    /// back to the file and local line it came from.
    pub fn collect(&self) -> (r: (String, Index))
        requires
            node_wf(*self),
            node_flat(*self).len() <= usize::MAX,
        ensures
            r.0@ == join_flat(node_flat(*self)),
            r.1.wf(),
            r.1.size_spec() == node_flat(*self).len(),
            forall|k: int|
                0 <= k < node_flat(*self).len() ==> seg_lookup(r.1@, k) == Some(
                    node_orig(*self)[k],
                ),
        decreases *self,
    {
        let mut accum = String::new();
        let mut index = Index::new();
        let nlines = self.lines.len();
        let nchildren = self.children.len();
        let mut ppos: usize = 0;
        let mut j: usize = 0;
        let ghost mut done: Seq<Seq<char>> = Seq::empty();
        let ghost mut dorig: Seq<(Seq<char>, int)> = Seq::empty();
        proof {
            assert(done + flat_children(*self, 0, 0) =~= flat_children(*self, 0, 0));
            assert(dorig + orig_children(*self, 0, 0) =~= orig_children(*self, 0, 0));
        }
        while j < nchildren
            invariant
                node_wf(*self),
                node_flat(*self).len() <= usize::MAX,
                nlines == self.lines_spec().len(),
                nlines == self.lines@.len(),
                nchildren == self.children_spec().len(),
                nchildren == self.children@.len(),
                0 <= j <= nchildren,
                0 <= ppos <= nlines,
                j < nchildren ==> ppos <= self.children_spec()[j as int].1,
                children_wf(*self, j as int),
                node_flat(*self) == done + flat_children(*self, j as int, ppos as int),
                node_orig(*self) == dorig + orig_children(*self, j as int, ppos as int),
                done.len() == dorig.len(),
                accum@ == join_flat(done),
                index.wf(),
                index.size_spec() == done.len(),
                forall|k: int|
                    0 <= k < done.len() ==> seg_lookup(index@, k) == Some(dorig[k]),
            decreases nchildren - j,
        {
            let pos = self.children[j].1;
            proof {
                assert(self.children_spec()[j as int] == (
                    self.children@[j as int].0,
                    self.children@[j as int].1 as int,
                ));
                assert(children_wf(*self, j as int));
                assert(0 <= self.children_spec()[j as int].1 < nlines);
            }
            let ghost c = self.children_spec()[j as int].0;
            let ghost head = self.lines_spec().subrange(ppos as int, pos + 1);
            let ghost horig = Seq::new(
                (pos + 1 - ppos) as nat,
                |k: int| (self.name_spec(), ppos + k),
            );
            let ghost segbase = index@;
            proof {
                assert(flat_children(*self, j as int, ppos as int) == head + node_flat(c)
                    + flat_children(*self, j + 1, pos + 1));
                assert(orig_children(*self, j as int, ppos as int) == horig + node_orig(c)
                    + orig_children(*self, j + 1, pos + 1));
            }
            self.push_lines(&mut accum, ppos, pos + 1);
            index.push(self.name.as_str(), ppos, pos + 1 - ppos);
            proof {
                let s = SegV {
                    name: self.name_spec(),
                    start: ppos as int,
                    lo: done.len() as int,
                    hi: done.len() + head.len() as int,
                };
                assert(index@ == segbase.push(s));
                assert forall|k: int|
                    0 <= k < done.len() + head.len() implies seg_lookup(index@, k) == Some(
                        (dorig + horig)[k],
                    ) by {
                    lemma_lookup_push(segbase, s, 0, k);
                }
                lemma_join_concat(done, head);
                done = done + head;
                dorig = dorig + horig;
            }
            let child = &self.children[j].0;
            proof {
                assert(*child == c);
                assert(node_wf(c));
            }
            let (ctext, cindex) = child.collect();
            let ghost segmid = index@;
            let ghost base2 = done.len() as int;
            accum.append(ctext.as_str());
            index.append(cindex);
            proof {
                lemma_join_concat(done, node_flat(c));
                lemma_flat_orig_len(c);
                let shifted = seg_shift(cindex@, base2);
                assert(index@ == segmid + shifted);
                assert(chain_end(segmid, 0) == base2);
                assert forall|k: int|
                    0 <= k < done.len() + node_flat(c).len() implies seg_lookup(index@, k)
                        == Some((dorig + node_orig(c))[k]) by {
                    lemma_lookup_concat(segmid, shifted, 0, k);
                    if k >= base2 {
                        lemma_lookup_shift(cindex@, base2, k);
                    }
                }
                done = done + node_flat(c);
                dorig = dorig + node_orig(c);
            }
            ppos = pos + 1;
            j += 1;
            proof {
                assert(children_wf(*self, j as int));
                if j < nchildren {
                    assert(self.children_spec()[j - 1].1 < self.children_spec()[j as int].1);
                }
            }
        }
        proof {
            assert(flat_children(*self, nchildren as int, ppos as int)
                == self.lines_spec().subrange(ppos as int, nlines as int));
            assert(orig_children(*self, nchildren as int, ppos as int) == Seq::new(
                (nlines - ppos) as nat,
                |k: int| (self.name_spec(), ppos + k),
            ));
        }
        if ppos < nlines {
            let ghost tail = self.lines_spec().subrange(ppos as int, nlines as int);
            let ghost torig = Seq::new(
                (nlines - ppos) as nat,
                |k: int| (self.name_spec(), ppos + k),
            );
            let ghost segbase = index@;
            self.push_lines(&mut accum, ppos, nlines);
            index.push(self.name.as_str(), ppos, nlines - ppos);
            proof {
                let s = SegV {
                    name: self.name_spec(),
                    start: ppos as int,
                    lo: done.len() as int,
                    hi: done.len() + tail.len() as int,
                };
                assert(index@ == segbase.push(s));
                assert forall|k: int|
                    0 <= k < done.len() + tail.len() implies seg_lookup(index@, k) == Some(
                        (dorig + torig)[k],
                    ) by {
                    lemma_lookup_push(segbase, s, 0, k);
                }
                lemma_join_concat(done, tail);
                done = done + tail;
                dorig = dorig + torig;
            }
        } else {
            proof {
                assert(self.lines_spec().subrange(ppos as int, nlines as int)
                    =~= Seq::<Seq<char>>::empty());
                assert(done + flat_children(*self, nchildren as int, ppos as int) =~= done);
                assert(orig_children(*self, nchildren as int, ppos as int)
                    =~= Seq::<(Seq<char>, int)>::empty());
                assert(dorig + orig_children(*self, nchildren as int, ppos as int) =~= dorig);
            }
        }
        (accum, index)
    }
}

impl Index {
    /// Maps a line number of the flattened output to the originating
    /// file's name and the line's position in it; `None` past the end.
    pub fn search(&self, pos: usize) -> (r: Option<(String, usize)>)
        requires
            self.wf(),
        ensures
            match seg_lookup(self@, pos as int) {
                Some((nm, lp)) => r matches Some(p) && p.0@ == nm && p.1 == lp,
                None => r is None,
            },
    {
        proof {
            lemma_chain_index_facts(self@, 0, self.size_spec());
        }
        let n = self.segs.len();
        let mut lo: usize = 0;
        let mut hi: usize = n;
        while lo < hi
            invariant
                self.wf(),
                0 <= lo <= hi <= n,
                n == self@.len(),
                n == self.segs@.len(),
                forall|i: int| 0 <= i < self@.len() ==> (#[trigger] self@[i]).lo < self@[i].hi,
                forall|i: int|
                    0 <= i < lo ==> (#[trigger] self@[i]).hi <= pos as int,
                forall|i: int|
                    hi <= i < n ==> (#[trigger] self@[i]).lo > pos as int,
            decreases hi - lo,
        {
            let mid = lo + (hi - lo) / 2;
            let e = &self.segs[mid];
            proof {
                assert(self@[mid as int] == SegV {
                    name: self.segs@[mid as int].name@,
                    start: self.segs@[mid as int].start as int,
                    lo: self.segs@[mid as int].lo as int,
                    hi: self.segs@[mid as int].hi as int,
                });
            }
            if e.hi <= pos {
                proof {
                    assert forall|i: int| 0 <= i <= mid implies (#[trigger] self@[i]).hi
                        <= pos as int by {
                        lemma_chain_mono(self@, 0, i, mid as int);
                    }
                }
                lo = mid + 1;
            } else if e.lo > pos {
                proof {
                    assert forall|i: int| mid <= i < n implies (#[trigger] self@[i]).lo
                        > pos as int by {
                        lemma_chain_mono(self@, 0, mid as int, i);
                    }
                }
                hi = mid;
            } else {
                proof {
                    lemma_lookup_found(self@, 0, mid as int, pos as int);
                }
                let nm = e.name.clone();
                return Some((nm, pos - e.lo + e.start));
            }
        }
        proof {
            lemma_lookup_misses(self@, 0, pos as int);
        }
        None
    }
}

/// Indexed facts of a chain: each segment is nonempty and the ranges are
/// ordered.
pub proof fn lemma_chain_index_facts(segs: Seq<SegV>, lo0: int, end: int)
    requires
        chain_from(segs, lo0),
    ensures
        forall|i: int| 0 <= i < segs.len() ==> (#[trigger] segs[i]).lo < segs[i].hi,
    decreases segs.len(),
{
    if segs.len() > 0 {
        lemma_chain_index_facts(segs.skip(1), segs[0].hi, end);
        assert(forall|i: int| 1 <= i < segs.len() ==> segs[i] == segs.skip(1)[i - 1]);
    }
}

/// Ranges of a chain are ordered: an earlier segment ends at or before a
/// later one begins.
pub proof fn lemma_chain_mono(segs: Seq<SegV>, lo0: int, i: int, j: int)
    requires
        chain_from(segs, lo0),
        0 <= i <= j < segs.len(),
    ensures
        i < j ==> segs[i].hi <= segs[j].lo,
        segs[i].lo < segs[i].hi,
    decreases segs.len(),
{
    if segs.len() > 0 {
        if i == 0 {
            if j > 0 {
                lemma_chain_lo_ge(segs.skip(1), segs[0].hi, j - 1);
                assert(segs.skip(1)[j - 1] == segs[j]);
            }
        } else {
            lemma_chain_mono(segs.skip(1), segs[0].hi, i - 1, j - 1);
            assert(segs.skip(1)[i - 1] == segs[i]);
            assert(segs.skip(1)[j - 1] == segs[j]);
        }
    }
}

/// Every segment of a chain begins at or after the chain's start.
pub proof fn lemma_chain_lo_ge(segs: Seq<SegV>, lo0: int, i: int)
    requires
        chain_from(segs, lo0),
        0 <= i < segs.len(),
    ensures
        segs[i].lo >= lo0,
    decreases i,
{
    if i > 0 {
        lemma_chain_lo_ge(segs.skip(1), segs[0].hi, i - 1);
        assert(segs.skip(1)[i - 1] == segs[i]);
    }
}

/// When a segment's range holds the position, the lookup lands on it.
pub proof fn lemma_lookup_found(segs: Seq<SegV>, lo0: int, i: int, pos: int)
    requires
        chain_from(segs, lo0),
        0 <= i < segs.len(),
        segs[i].lo <= pos < segs[i].hi,
    ensures
        seg_lookup(segs, pos) == Some((segs[i].name, pos - segs[i].lo + segs[i].start)),
    decreases i,
{
    if i > 0 {
        lemma_chain_lo_ge(segs.skip(1), segs[0].hi, i - 1);
        assert(segs.skip(1)[i - 1] == segs[i]);
        lemma_lookup_found(segs.skip(1), segs[0].hi, i - 1, pos);
    }
}

/// When no segment's range holds the position, the lookup misses.
pub proof fn lemma_lookup_misses(segs: Seq<SegV>, lo0: int, pos: int)
    requires
        forall|i: int|
            0 <= i < segs.len() ==> !((#[trigger] segs[i]).lo <= pos < segs[i].hi),
    ensures
        seg_lookup(segs, pos) is None,
    decreases segs.len(),
{
    if segs.len() > 0 {
        assert(forall|i: int| 1 <= i < segs.len() ==> segs[i] == segs.skip(1)[i - 1]);
        assert(forall|i: int|
            0 <= i < segs.skip(1).len() ==> segs.skip(1)[i] == segs[i + 1]);
        lemma_lookup_misses(segs.skip(1), segs[0].hi, pos);
    }
}

} // verus!
