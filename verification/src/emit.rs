//! How the rewrite assembles its output: operations pass straight through, text
//! blocks are held until their `ET`, and path construction is held until the
//! operator that ends the path, when each subpath is kept or shifted whole.
use vstd::prelude::*;

verus! {

/// Where a subpath lies against the removed band.
#[derive(PartialEq, Eq, Structural, Debug, Clone, Copy)]
pub enum Side {
    /// It has no points.
    Empty,
    /// Wholly left of the band: kept in place.
    Left,
    /// Wholly right of the band: shifted left by the cut.
    Right,
    /// It crosses the band: the page cannot be rewritten.
    Cross,
}

/// A subpath under construction: its points and its operations.
pub struct Subpath<O, P> {
    pub pts: Vec<P>,
    pub ops: Vec<O>,
}

/// The output being assembled, and what is held back.
pub struct Assembly<O, P> {
    /// Operations already placed.
    pub out: Vec<O>,
    /// Operations of the open text block, after its `BT`.
    pub block: Vec<O>,
    /// Whether a text block is open.
    pub in_text: bool,
    /// Path operations before the first subpath start.
    pub preamble: Vec<O>,
    /// Finished subpaths of the current path.
    pub subpaths: Vec<Subpath<O, P>>,
    /// The subpath being built.
    pub cur: Option<Subpath<O, P>>,
}

/// A subpath seen as its points and its operations.
pub open spec fn sp_view<O, P>(sp: Subpath<O, P>) -> (Seq<P>, Seq<O>) {
    (sp.pts@, sp.ops@)
}

/// What an assembly holds, as sequences.
pub struct AsmView<O, P> {
    pub out: Seq<O>,
    pub block: Seq<O>,
    pub in_text: bool,
    pub preamble: Seq<O>,
    pub subpaths: Seq<(Seq<P>, Seq<O>)>,
    pub cur: Option<(Seq<P>, Seq<O>)>,
}

impl<O, P> View for Assembly<O, P> {
    type V = AsmView<O, P>;

    open spec fn view(&self) -> AsmView<O, P> {
        AsmView {
            out: self.out@,
            block: self.block@,
            in_text: self.in_text,
            preamble: self.preamble@,
            subpaths: self.subpaths@.map_values(|sp: Subpath<O, P>| sp_view(sp)),
            cur: match self.cur {
                Some(c) => Some(sp_view(c)),
                None => None,
            },
        }
    }
}

/// The operations of a sequence of subpaths, in order.
pub open spec fn subpath_ops<O, P>(sps: Seq<(Seq<P>, Seq<O>)>) -> Seq<O>
    decreases sps.len(),
{
    if sps.len() == 0 {
        Seq::empty()
    } else {
        subpath_ops(sps.drop_last()) + sps.last().1
    }
}

/// The operations of subpaths, each marked with whether its subpath lies right
/// of the band.
pub open spec fn marked_ops<O, P>(sps: Seq<(Seq<P>, Seq<O>)>, sides: Seq<Side>) -> Seq<(O, bool)>
    decreases sps.len(),
{
    if sps.len() == 0 {
        Seq::empty()
    } else {
        let last = sps.len() - 1;
        marked_ops(sps.drop_last(), sides.take(last)) + sps.last().1.map_values(
            |o: O| (o, sides[last] == Side::Right),
        )
    }
}

/// Operations that keep their place.
pub open spec fn unmarked<O>(ops: Seq<O>) -> Seq<(O, bool)> {
    ops.map_values(|o: O| (o, false))
}

/// The operations of an optional subpath.
pub open spec fn cur_ops<O, P>(cur: Option<(Seq<P>, Seq<O>)>) -> Seq<O> {
    match cur {
        Some(c) => c.1,
        None => Seq::empty(),
    }
}

/// Whether some subpath crosses the band.
pub open spec fn any_cross(sides: Seq<Side>) -> bool {
    exists|i: int| 0 <= i < sides.len() && sides[i] == Side::Cross
}

/// Whether some subpath lies right of the band.
pub open spec fn any_right(sides: Seq<Side>) -> bool {
    exists|i: int| 0 <= i < sides.len() && sides[i] == Side::Right
}

impl<O, P> AsmView<O, P> {
    pub open spec fn emit(self, op: O) -> Self {
        AsmView { out: self.out.push(op), ..self }
    }

    pub open spec fn begin_text(self, bt: O) -> Self {
        AsmView { out: self.out.push(bt), block: Seq::empty(), in_text: true, ..self }
    }

    pub open spec fn push_block(self, op: O) -> Self {
        AsmView { block: self.block.push(op), ..self }
    }

    /// The operations `ops` added to the open text block one after the other.
    pub open spec fn push_blocks(self, ops: Seq<O>) -> Self
        decreases ops.len(),
    {
        if ops.len() == 0 {
            self
        } else {
            self.push_blocks(ops.drop_last()).push_block(ops.last())
        }
    }

    pub open spec fn end_text(self, et: O) -> Self {
        AsmView {
            out: self.out + self.block + seq![et],
            block: Seq::empty(),
            in_text: false,
            ..self
        }
    }

    pub open spec fn push_preamble(self, op: O) -> Self {
        AsmView { preamble: self.preamble.push(op), ..self }
    }

    /// The subpaths of the path with the one being built finished.
    pub open spec fn all_subpaths(self) -> Seq<(Seq<P>, Seq<O>)> {
        match self.cur {
            Some(c) => self.subpaths.push(c),
            None => self.subpaths,
        }
    }

    pub open spec fn start_subpath(self, pts: Seq<P>, op: O) -> Self {
        AsmView { subpaths: self.all_subpaths(), cur: Some((pts, seq![op])), ..self }
    }

    pub open spec fn extend_subpath(self, pts: Seq<P>, op: O) -> Self {
        match self.cur {
            Some(c) => AsmView { cur: Some((c.0 + pts, c.1.push(op))), ..self },
            None => AsmView { preamble: self.preamble.push(op), ..self },
        }
    }

    pub open spec fn close_current(self) -> Self {
        AsmView { subpaths: self.all_subpaths(), cur: None, ..self }
    }

    /// The assembly once the held path operations are handed out.
    pub open spec fn path_taken(self) -> Self {
        AsmView { preamble: Seq::empty(), subpaths: Seq::empty(), ..self }
    }

    /// The operations `take_path` hands out for the given sides.
    pub open spec fn path_plan(self, sides: Seq<Side>) -> Seq<(O, bool)> {
        unmarked(self.preamble) + marked_ops(self.subpaths, sides)
    }

    /// The finished output: the placed operations, then the held path
    /// operations.
    pub open spec fn finished(self) -> Seq<O> {
        self.out + self.preamble + subpath_ops(self.subpaths) + cur_ops(self.cur)
    }
}

/// Appends each of `ops` to `r`, in order, marked with `flag`.
fn mark_all<O>(ops: Vec<O>, flag: bool, r: &mut Vec<(O, bool)>)
    ensures
        final(r)@ == old(r)@ + ops@.map_values(|o: O| (o, flag)),
{
    let ghost r0 = r@;
    let ghost ops0 = ops@;
    for o in it: ops.into_iter()
        invariant
            it.seq() == ops0,
            r@ == r0 + it.seq().take(it.index() as int).map_values(|o: O| (o, flag)),
    {
        r.push((o, flag));
        proof {
            assert(it.seq().take(it.index() as int + 1) =~= it.seq().take(it.index() as int).push(o));
        }
    }
}

impl<O, P> Assembly<O, P> {
    /// Nothing placed, nothing held.
    pub fn new() -> (r: Self)
        ensures
            r@ == (AsmView::<O, P> {
                out: Seq::empty(),
                block: Seq::empty(),
                in_text: false,
                preamble: Seq::empty(),
                subpaths: Seq::empty(),
                cur: None,
            }),
    {
        let r = Assembly {
            out: Vec::new(),
            block: Vec::new(),
            in_text: false,
            preamble: Vec::new(),
            subpaths: Vec::new(),
            cur: None,
        };
        assert(r@.subpaths =~= Seq::<(Seq<P>, Seq<O>)>::empty());
        r
    }

    /// Places an operation in the output.
    pub fn emit(&mut self, op: O)
        ensures
            final(self)@ == old(self)@.emit(op),
    {
        self.out.push(op);
    }

    /// Opens a text block: `bt` is placed, and the block starts empty.
    pub fn begin_text(&mut self, bt: O)
        ensures
            final(self)@ == old(self)@.begin_text(bt),
    {
        self.in_text = true;
        self.block = Vec::new();
        self.out.push(bt);
    }

    /// Adds an operation to the open text block.
    pub fn push_block(&mut self, op: O)
        ensures
            final(self)@ == old(self)@.push_block(op),
    {
        self.block.push(op);
    }

    /// Closes the text block: its operations are placed in order, then `et`.
    pub fn end_text(&mut self, et: O)
        ensures
            final(self)@ == old(self)@.end_text(et),
    {
        let ghost out0 = self.out@;
        let ghost block0 = self.block@;
        let mut block = Vec::new();
        std::mem::swap(&mut block, &mut self.block);
        self.out.append(&mut block);
        self.out.push(et);
        self.in_text = false;
        assert(self.out@ =~= out0 + block0 + seq![et]);
        assert(self.block@ =~= Seq::<O>::empty());
    }

    /// Holds a path operation that comes before any subpath start.
    pub fn push_preamble(&mut self, op: O)
        ensures
            final(self)@ == old(self)@.push_preamble(op),
    {
        self.preamble.push(op);
    }

    /// Starts a subpath (`m` or `re`) with its points; the one being built, if
    /// any, is finished.
    pub fn start_subpath(&mut self, pts: Vec<P>, op: O)
        ensures
            final(self)@ == old(self)@.start_subpath(pts@, op),
    {
        let ghost v0 = self@;
        let cur = self.cur.take();
        if let Some(c) = cur {
            let ghost sps0 = self.subpaths@;
            self.subpaths.push(c);
            assert(self.subpaths@.map_values(|sp: Subpath<O, P>| sp_view(sp)) =~= sps0.map_values(
                |sp: Subpath<O, P>| sp_view(sp),
            ).push(sp_view(c)));
        }
        let mut ops = Vec::new();
        ops.push(op);
        assert(ops@ =~= seq![op]);
        self.cur = Some(Subpath { pts, ops });
        assert(self@ =~= v0.start_subpath(pts@, op));
    }

    /// Continues the subpath being built (`l c v y` with their points, `h`
    /// with none); before any subpath start the operation is held in the
    /// preamble.
    pub fn extend_subpath(&mut self, pts: Vec<P>, op: O)
        ensures
            final(self)@ == old(self)@.extend_subpath(pts@, op),
    {
        let ghost v0 = self@;
        let cur = self.cur.take();
        match cur {
            Some(mut c) => {
                let ghost c0 = c;
                let mut pts = pts;
                let ghost pts0 = pts@;
                c.pts.append(&mut pts);
                c.ops.push(op);
                assert(c.pts@ =~= c0.pts@ + pts0);
                self.cur = Some(c);
            },
            None => {
                self.preamble.push(op);
            },
        }
        assert(self@ =~= v0.extend_subpath(pts@, op));
    }

    /// Finishes the subpath being built, so that all subpaths of the path are
    /// in `subpaths`.
    pub fn close_current(&mut self)
        ensures
            final(self)@ == old(self)@.close_current(),
    {
        let ghost v0 = self@;
        let cur = self.cur.take();
        if let Some(c) = cur {
            let ghost sps0 = self.subpaths@;
            self.subpaths.push(c);
            assert(self.subpaths@.map_values(|sp: Subpath<O, P>| sp_view(sp)) =~= sps0.map_values(
                |sp: Subpath<O, P>| sp_view(sp),
            ).push(sp_view(c)));
        }
        assert(self@ =~= v0.close_current());
    }

    /// Ends the path, given where each subpath lies and whether a shift can be
    /// made. Refuses (`None`) when a subpath crosses the band, or when one lies
    /// right of it and no shift can be made. Otherwise gives the held
    /// operations in order, the preamble first, each marked with whether it is
    /// to be shifted (those of subpaths right of the band), and holds no path
    /// operation any more.
    pub fn take_path(&mut self, sides: &Vec<Side>, can_shift: bool) -> (r: Option<Vec<(O, bool)>>)
        requires
            sides@.len() == old(self)@.subpaths.len(),
        ensures
            r is None <==> any_cross(sides@) || (any_right(sides@) && !can_shift),
            r is None ==> final(self)@ == old(self)@,
            r matches Some(v) ==> v@ == old(self)@.path_plan(sides@) && final(self)@ == old(
                self,
            )@.path_taken(),
    {
        let ghost v0 = self@;
        let mut i: usize = 0;
        let mut right = false;
        while i < sides.len()
            invariant
                i <= sides@.len(),
                right == exists|j: int| 0 <= j < i && sides@[j] == Side::Right,
                forall|j: int| 0 <= j < i ==> sides@[j] != Side::Cross,
            decreases sides@.len() - i,
        {
            if sides[i] == Side::Cross {
                return None;
            }
            if sides[i] == Side::Right {
                right = true;
            }
            i += 1;
        }
        if right && !can_shift {
            return None;
        }
        let mut r: Vec<(O, bool)> = Vec::new();
        let mut pre = Vec::new();
        std::mem::swap(&mut pre, &mut self.preamble);
        let ghost pre0 = pre@;
        mark_all(pre, false, &mut r);
        assert(r@ =~= unmarked(pre0));
        let mut sps = Vec::new();
        std::mem::swap(&mut sps, &mut self.subpaths);
        let ghost raw0 = sps@;
        let ghost sps0 = raw0.map_values(|sp: Subpath<O, P>| sp_view(sp));
        let ghost r0 = r@;
        let n = sides.len();
        let mut j: usize = 0;
        for sp in it: sps.into_iter()
            invariant
                n == sides@.len(),
                it.seq() == raw0,
                sps0 == raw0.map_values(|sp: Subpath<O, P>| sp_view(sp)),
                raw0.len() == sides@.len(),
                j == it.index(),
                r@ == r0 + marked_ops(sps0.take(j as int), sides@.take(j as int)),
        {
            let flag = sides[j] == Side::Right;
            let ghost spv = sp_view(sp);
            mark_all(sp.ops, flag, &mut r);
            proof {
                let tk = sps0.take(j + 1);
                assert(tk.drop_last() =~= sps0.take(j as int));
                assert(sides@.take(j + 1).take(j as int) =~= sides@.take(j as int));
                assert(tk.last() == spv);
            }
            j += 1;
        }
        proof {
            assert(sps0.take(raw0.len() as int) =~= sps0);
            assert(sides@.take(raw0.len() as int) =~= sides@);
            assert(self@.subpaths =~= Seq::<(Seq<P>, Seq<O>)>::empty());
            assert(self@.preamble =~= Seq::<O>::empty());
            assert(self@ =~= v0.path_taken());
        }
        Some(r)
    }

    /// The finished output: refused while a text block is open; otherwise the
    /// placed operations, then the held path operations (construction that no
    /// operator ended draws nothing and passes unchanged).
    pub fn finish(self) -> (r: Option<Vec<O>>)
        ensures
            r is None <==> self@.in_text,
            r matches Some(v) ==> v@ == self@.finished(),
    {
        if self.in_text {
            return None;
        }
        let ghost v0 = self@;
        let Assembly { out, block: _, in_text: _, preamble, subpaths, cur } = self;
        let mut out = out;
        let mut preamble = preamble;
        out.append(&mut preamble);
        let ghost base = out@;
        let sps = subpaths;
        let ghost raw0 = sps@;
        let ghost sps0 = sps@.map_values(|sp: Subpath<O, P>| sp_view(sp));
        for sp in it: sps.into_iter()
            invariant
                it.seq() == raw0,
                sps0 == raw0.map_values(|sp: Subpath<O, P>| sp_view(sp)),
                out@ == base + subpath_ops(sps0.take(it.index() as int)),
        {
            let ghost spv = sp_view(sp);
            let ghost before = out@;
            let mut ops = sp.ops;
            let ghost ops0 = ops@;
            out.append(&mut ops);
            proof {
                let tk = sps0.take(it.index() + 1);
                assert(tk.drop_last() =~= sps0.take(it.index() as int));
                assert(tk.last() == spv);
                assert(out@ =~= before + ops0);
            }
        }
        assert(sps0.take(raw0.len() as int) =~= sps0);
        if let Some(c) = cur {
            let mut ops = c.ops;
            out.append(&mut ops);
        }
        Some(out)
    }
}

// ----- laws of the assembly -----

/// A text block reaches the output whole: opened with `bt`, filled with
/// `ops` and closed with `et`, the output grows by `bt`, the operations in
/// their order, and `et`; no block stays open, and the held path is as it was.
pub proof fn law_text_block_placed_whole<O, P>(a: AsmView<O, P>, bt: O, ops: Seq<O>, et: O)
    ensures
        ({
            let b = a.begin_text(bt).push_blocks(ops).end_text(et);
            &&& b.out == a.out.push(bt) + ops + seq![et]
            &&& !b.in_text
            &&& b.block == Seq::<O>::empty()
            &&& b.preamble == a.preamble
            &&& b.subpaths == a.subpaths
            &&& b.cur == a.cur
        }),
{
    lemma_push_blocks(a.begin_text(bt), ops);
    assert(a.begin_text(bt).block + ops =~= ops);
}

proof fn lemma_push_blocks<O, P>(a: AsmView<O, P>, ops: Seq<O>)
    ensures
        a.push_blocks(ops) == (AsmView { block: a.block + ops, ..a }),
    decreases ops.len(),
{
    if ops.len() > 0 {
        lemma_push_blocks(a, ops.drop_last());
        assert(a.block + ops.drop_last() + seq![ops.last()] =~= a.block + ops);
        assert((a.block + ops.drop_last()).push(ops.last()) =~= a.block + ops);
    } else {
        assert(a.block + ops =~= a.block);
    }
}

/// Nothing moves unless it lies right of the band: when no subpath of a path
/// lies right of the band, its operations are handed out unmarked and in the
/// order they came.
pub proof fn law_path_in_place_unless_right<O, P>(a: AsmView<O, P>, sides: Seq<Side>)
    requires
        sides.len() == a.subpaths.len(),
        !any_right(sides),
    ensures
        a.path_plan(sides) == unmarked(a.preamble + subpath_ops(a.subpaths)),
{
    lemma_marked_unmarked(a.subpaths, sides);
    assert(unmarked(a.preamble) + unmarked(subpath_ops(a.subpaths)) =~= unmarked(
        a.preamble + subpath_ops(a.subpaths),
    ));
}

proof fn lemma_marked_unmarked<O, P>(sps: Seq<(Seq<P>, Seq<O>)>, sides: Seq<Side>)
    requires
        sides.len() == sps.len(),
        !any_right(sides),
    ensures
        marked_ops(sps, sides) == unmarked(subpath_ops(sps)),
    decreases sps.len(),
{
    if sps.len() > 0 {
        let last = sps.len() - 1;
        assert(!any_right(sides.take(last))) by {
            if any_right(sides.take(last)) {
                let i = choose|i: int| 0 <= i < sides.take(last).len() && sides.take(last)[i]
                    == Side::Right;
                assert(sides[i] == Side::Right);
            }
        }
        lemma_marked_unmarked(sps.drop_last(), sides.take(last));
        assert(sides[last] != Side::Right);
        assert(sps.last().1.map_values(|o: O| (o, sides[last] == Side::Right)) =~= unmarked(
            sps.last().1,
        ));
        assert(unmarked(subpath_ops(sps.drop_last())) + unmarked(sps.last().1) =~= unmarked(
            subpath_ops(sps.drop_last()) + sps.last().1,
        ));
    } else {
        assert(unmarked(subpath_ops(sps)) =~= Seq::<(O, bool)>::empty());
    }
}

/// Every held path operation is handed out exactly once: without their marks,
/// the operations that `take_path` hands out are the preamble and then the
/// operations of each subpath, in the order they came, none dropped and none
/// repeated.
pub proof fn law_path_handed_out_once<O, P>(a: AsmView<O, P>, sides: Seq<Side>)
    requires
        sides.len() == a.subpaths.len(),
    ensures
        a.path_plan(sides).map_values(|p: (O, bool)| p.0) == a.preamble + subpath_ops(a.subpaths),
{
    lemma_marked_ops_unmarked(a.subpaths, sides);
    assert(unmarked(a.preamble).map_values(|p: (O, bool)| p.0) =~= a.preamble);
    assert(a.path_plan(sides).map_values(|p: (O, bool)| p.0) =~= unmarked(a.preamble).map_values(
        |p: (O, bool)| p.0,
    ) + marked_ops(a.subpaths, sides).map_values(|p: (O, bool)| p.0));
}

proof fn lemma_marked_ops_unmarked<O, P>(sps: Seq<(Seq<P>, Seq<O>)>, sides: Seq<Side>)
    requires
        sides.len() == sps.len(),
    ensures
        marked_ops(sps, sides).map_values(|p: (O, bool)| p.0) == subpath_ops(sps),
    decreases sps.len(),
{
    if sps.len() > 0 {
        let last = sps.len() - 1;
        lemma_marked_ops_unmarked(sps.drop_last(), sides.take(last));
        let tail = sps.last().1.map_values(|o: O| (o, sides[last] == Side::Right));
        assert(tail.map_values(|p: (O, bool)| p.0) =~= sps.last().1);
        assert((marked_ops(sps.drop_last(), sides.take(last)) + tail).map_values(
            |p: (O, bool)| p.0,
        ) =~= marked_ops(sps.drop_last(), sides.take(last)).map_values(|p: (O, bool)| p.0)
            + tail.map_values(|p: (O, bool)| p.0));
    } else {
        assert(marked_ops(sps, sides).map_values(|p: (O, bool)| p.0) =~= Seq::<O>::empty());
    }
}

} // verus!
