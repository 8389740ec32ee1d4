//! The linear system of one iteration, as blocks and segments with their places.

use crate::factor_graph::variable::{FixedType, Variable};
use crate::factor_graph::factor::{Factor, FactorView};
use crate::factor_graph::{factor_ok, lemma_range_within, FactorGraph, GraphView, Link};
use crate::optimizer::Numerics;
use vstd::prelude::*;

verus! {

/// A block of the matrix of a linear system: `rows` times `cols` scalars, column by
/// column, that are to be added to the matrix from row `row` and column `col` on.
#[derive(Debug)]
pub struct Block {
    pub row: usize,
    pub col: usize,
    pub rows: usize,
    pub cols: usize,
    pub values: Vec<u64>,
}

/// A part of the right-hand side of a linear system: scalars that are to be added to the
/// vector from row `row` on.
#[derive(Debug)]
pub struct Segment {
    pub row: usize,
    pub values: Vec<u64>,
}

/// A linear system `H x = b` of `dim` rows in which `H` is the sum of blocks and `b` the
/// sum of segments. Where no block lies, `H` is zero; where no segment lies, `b` is.
#[derive(Debug)]
pub struct LinearSystem {
    pub dim: usize,
    pub blocks: Vec<Block>,
    pub segments: Vec<Segment>,
}

/// The scalar in row `r` and column `c` of a matrix of `rows` rows that is held column by
/// column.
pub open spec fn entry(values: Seq<u64>, rows: int, r: int, c: int) -> u64 {
    values[c * rows + r]
}

impl Block {
    /// The block has as many scalars as its size says, and lies within a matrix of `dim`
    /// rows and columns.
    pub open spec fn fits(&self, dim: int) -> bool {
        &&& self.values@.len() == self.rows * self.cols
        &&& self.row + self.rows <= dim
        &&& self.col + self.cols <= dim
    }
}

impl Segment {
    /// The segment lies within a vector of `dim` rows.
    pub open spec fn fits(&self, dim: int) -> bool {
        self.row + self.values@.len() <= dim
    }
}

impl LinearSystem {
    /// Every block and every segment lies within the system.
    pub open spec fn wf(&self) -> bool {
        &&& forall|i: int| 0 <= i < self.blocks@.len() ==> (#[trigger] self.blocks@[i]).fits(self.dim as int)
        &&& forall|i: int|
            0 <= i < self.segments@.len() ==> (#[trigger] self.segments@[i]).fits(self.dim as int)
    }

    /// A system of `dim` rows without blocks and segments.
    pub fn new(dim: usize) -> (system: LinearSystem)
        ensures
            system.wf(),
            system.dim == dim,
            system.blocks@.len() == 0,
            system.segments@.len() == 0,
    {
        LinearSystem { dim, blocks: Vec::new(), segments: Vec::new() }
    }
}

/// One of the variables that a factor touches, as the linear system sees it.
pub struct Participant {
    /// Whether the variable takes part in the optimization.
    pub free: bool,
    /// The first of the variable's columns in the factor's Jacobian.
    pub offset: int,
    /// The first of the variable's rows in the linear system.
    pub start: int,
    /// The variable's local dimension.
    pub dim: int,
}

/// The variable that a factor leaves.
pub open spec fn source_part(source: Variable) -> Participant {
    Participant {
        free: !source.fixed_type().is_fixed(),
        offset: 0,
        start: source.fixed_type().start(),
        dim: source.kind().spec_local_dim() as int,
    }
}

/// The variable that a factor leads to. A prior leads nowhere: its second participant
/// takes no part.
pub open spec fn target_part(source: Variable, target: Variable, prior: bool) -> Participant {
    Participant {
        free: !prior && !target.fixed_type().is_fixed(),
        offset: source.kind().spec_local_dim() as int,
        start: target.fixed_type().start(),
        dim: target.kind().spec_local_dim() as int,
    }
}

/// The number of columns of a factor's Jacobian.
pub open spec fn local_size(source: Variable, target: Variable, prior: bool) -> int {
    if prior {
        source.kind().spec_local_dim() as int
    } else {
        source.kind().spec_local_dim() + target.kind().spec_local_dim()
    }
}

/// The pair of participants, if both take part in the optimization.
pub open spec fn free_pair(p: Participant, q: Participant) -> Seq<(Participant, Participant)> {
    if p.free && q.free {
        seq![(p, q)]
    } else {
        Seq::empty()
    }
}

/// The participant, if it takes part in the optimization.
pub open spec fn free_part(p: Participant) -> Seq<Participant> {
    if p.free {
        seq![p]
    } else {
        Seq::empty()
    }
}

/// The pairs of variables whose blocks a factor contributes to the matrix, in the order
/// in which it contributes them. A pair with a fixed variable is left out.
pub open spec fn block_pairs(source: Variable, target: Variable, prior: bool) -> Seq<
    (Participant, Participant),
> {
    let s = source_part(source);
    let t = target_part(source, target, prior);
    free_pair(s, s) + free_pair(s, t) + free_pair(t, s) + free_pair(t, t)
}

/// The variables whose segments a factor contributes to the right-hand side, in the
/// order in which it contributes them. A fixed variable is left out.
pub open spec fn segment_parts(source: Variable, target: Variable, prior: bool) -> Seq<Participant> {
    free_part(source_part(source)) + free_part(target_part(source, target, prior))
}

/// The block is the part of the matrix `local` of `d` rows that stands in the columns of
/// `p` transposed and the columns of `q`, and is to be added where the rows of `p` and
/// the columns of `q` meet.
pub open spec fn is_sub_block(block: Block, local: Seq<u64>, d: int, p: Participant, q: Participant) -> bool {
    &&& block.row == p.start
    &&& block.col == q.start
    &&& block.rows == p.dim
    &&& block.cols == q.dim
    &&& block.values@.len() == p.dim * q.dim
    &&& forall|r: int, c: int|
        0 <= r < p.dim && 0 <= c < q.dim ==> #[trigger] entry(block.values@, p.dim, r, c) == entry(
            local,
            d,
            p.offset + r,
            q.offset + c,
        )
}

/// The segment is the part of the vector `local` that stands in the columns of `p`, and
/// is to be added to the rows of `p`.
pub open spec fn is_sub_segment(segment: Segment, local: Seq<u64>, p: Participant) -> bool {
    &&& segment.row == p.start
    &&& segment.values@ == local.subrange(p.offset, p.offset + p.dim)
}

/// The variable lies within a linear system of `dim` rows.
pub open spec fn lies_within(variable: Variable, dim: int) -> bool {
    variable.fixed_type() is Fixed || (0 <= variable.fixed_type().start() && variable.fixed_type().end()
        == variable.fixed_type().start() + variable.kind().spec_local_dim()
        && variable.fixed_type().end() <= dim)
}

/// An index into a matrix that is held column by column lies within the matrix.
pub proof fn lemma_entry_index(rows: int, cols: int, r: int, c: int)
    requires
        0 <= r < rows,
        0 <= c < cols,
    ensures
        0 <= c * rows + r < rows * cols,
{
    assert(c * rows + r < rows * cols) by (nonlinear_arith)
        requires
            0 <= r < rows,
            0 <= c < cols,
    ;
    assert(0 <= c * rows) by (nonlinear_arith)
        requires
            0 <= rows,
            0 <= c,
    ;
}

/// Cuts a block out of a matrix of `d` rows and columns: `rows` rows from row
/// `row_offset` on, `cols` columns from column `col_offset` on.
fn sub_block(
    local: &Vec<u64>,
    d: usize,
    row_offset: usize,
    col_offset: usize,
    rows: usize,
    cols: usize,
) -> (values: Vec<u64>)
    requires
        d <= 12,
        local@.len() == d * d,
        row_offset + rows <= d,
        col_offset + cols <= d,
    ensures
        values@.len() == rows * cols,
        forall|r: int, c: int|
            0 <= r < rows && 0 <= c < cols ==> #[trigger] entry(values@, rows as int, r, c) == entry(
                local@,
                d as int,
                row_offset + r,
                col_offset + c,
            ),
{
    let mut values: Vec<u64> = Vec::new();
    let mut c: usize = 0;
    while c < cols
        invariant
            d <= 12,
            local@.len() == d * d,
            row_offset + rows <= d,
            col_offset + cols <= d,
            c <= cols,
            values@.len() == c * rows,
            forall|r: int, k: int|
                0 <= r < rows && 0 <= k < c ==> #[trigger] entry(values@, rows as int, r, k) == entry(
                    local@,
                    d as int,
                    row_offset + r,
                    col_offset + k,
                ),
        decreases cols - c,
    {
        let mut r: usize = 0;
        while r < rows
            invariant
                d <= 12,
                local@.len() == d * d,
                row_offset + rows <= d,
                col_offset + cols <= d,
                c < cols,
                r <= rows,
                values@.len() == c * rows + r,
                forall|x: int, k: int|
                    0 <= x < rows && 0 <= k < c ==> #[trigger] entry(values@, rows as int, x, k)
                        == entry(local@, d as int, row_offset + x, col_offset + k),
                forall|x: int|
                    0 <= x < r ==> #[trigger] entry(values@, rows as int, x, c as int) == entry(
                        local@,
                        d as int,
                        row_offset + x,
                        col_offset + c,
                    ),
            decreases rows - r,
        {
            proof {
                lemma_entry_index(d as int, d as int, row_offset + r, col_offset + c);
            }
            assert((col_offset + c) * d <= 144) by (nonlinear_arith)
                requires
                    col_offset + c <= 12,
                    d <= 12,
            ;
            let ghost before = values@;
            values.push(local[(col_offset + c) * d + row_offset + r]);
            proof {
                assert forall|x: int, k: int| 0 <= x < rows && 0 <= k < c implies #[trigger] entry(
                    values@,
                    rows as int,
                    x,
                    k,
                ) == entry(local@, d as int, row_offset + x, col_offset + k) by {
                    lemma_entry_index(rows as int, c as int, x, k);
                    assert(rows * c == c * rows) by (nonlinear_arith);
                    assert(entry(before, rows as int, x, k) == entry(values@, rows as int, x, k));
                }
                assert forall|x: int| 0 <= x < r + 1 implies #[trigger] entry(
                    values@,
                    rows as int,
                    x,
                    c as int,
                ) == entry(local@, d as int, row_offset + x, col_offset + c) by {
                    if x < r {
                        assert(entry(before, rows as int, x, c as int) == entry(
                            values@,
                            rows as int,
                            x,
                            c as int,
                        ));
                    }
                }
            }
            r += 1;
        }
        assert((c + 1) * rows == c * rows + rows) by (nonlinear_arith);
        c += 1;
    }
    values
}

/// Cuts a part out of a vector: `len` scalars from position `from` on.
fn sub_vector(local: &Vec<u64>, from: usize, len: usize) -> (values: Vec<u64>)
    requires
        from + len <= local@.len(),
    ensures
        values@ == local@.subrange(from as int, from + len),
{
    let mut values: Vec<u64> = Vec::new();
    let total = local.len();
    let mut i: usize = 0;
    while i < len
        invariant
            from + len <= local@.len(),
            total == local@.len(),
            i <= len,
            values@ == local@.subrange(from as int, from + i),
        decreases len - i,
    {
        values.push(local[from + i]);
        assert(values@ =~= local@.subrange(from as int, from + i + 1));
        i += 1;
    }
    values
}

/// The first of a variable's rows in the linear system, if the variable is not fixed.
fn start_of(variable: &Variable) -> (start: Option<usize>)
    ensures
        start is Some <==> !variable.fixed_type().is_fixed(),
        start is Some ==> start->0 == variable.fixed_type().start(),
{
    match variable.get_fixed_type() {
        FixedType::Fixed => None,
        FixedType::NonFixed(range) => Some(range.start),
    }
}

/// Adds one factor's share to a linear system, given the factor's linearization: the
/// matrix `local_h`, held column by column, whose rows and columns are the columns of the
/// factor's Jacobian, and the vector `local_b` of the same size.
///
/// For each pair of variables that the factor touches, the system gets the block of
/// `local_h` that belongs to the pair, and for each such variable the part of `local_b`
/// that belongs to it; what belongs to a fixed variable is dropped. A linearization of
/// the wrong size adds nothing, and the answer is `false`.
#[allow(non_snake_case)]
pub fn update_H_b(
    system: &mut LinearSystem,
    source: &Variable,
    target: &Variable,
    prior: bool,
    local_h: &Vec<u64>,
    local_b: &Vec<u64>,
) -> (updated: bool)
    requires
        old(system).wf(),
        lies_within(*source, old(system).dim as int),
        !prior ==> lies_within(*target, old(system).dim as int),
    ensures
        final(system).wf(),
        final(system).dim == old(system).dim,
        updated == (local_h@.len() == local_size(*source, *target, prior) * local_size(
            *source,
            *target,
            prior,
        ) && local_b@.len() == local_size(*source, *target, prior)),
        !updated ==> *final(system) == *old(system),
        updated ==> ({
            let pairs = block_pairs(*source, *target, prior);
            let parts = segment_parts(*source, *target, prior);
            let d = local_size(*source, *target, prior);
            &&& final(system).blocks@.len() == old(system).blocks@.len() + pairs.len()
            &&& final(system).blocks@.take(old(system).blocks@.len() as int) == old(system).blocks@
            &&& forall|j: int|
                0 <= j < pairs.len() ==> is_sub_block(
                    #[trigger] final(system).blocks@[old(system).blocks@.len() + j],
                    local_h@,
                    d,
                    pairs[j].0,
                    pairs[j].1,
                )
            &&& final(system).segments@.len() == old(system).segments@.len() + parts.len()
            &&& final(system).segments@.take(old(system).segments@.len() as int)
                == old(system).segments@
            &&& forall|j: int|
                0 <= j < parts.len() ==> is_sub_segment(
                    #[trigger] final(system).segments@[old(system).segments@.len() + j],
                    local_b@,
                    parts[j],
                )
        }),
{
    let ds = source.get_type().local_dim();
    let dt = if prior {
        0
    } else {
        target.get_type().local_dim()
    };
    let d = ds + dt;
    assert(d * d <= 144) by (nonlinear_arith)
        requires
            d <= 12,
    ;
    if local_h.len() != d * d || local_b.len() != d {
        return false;
    }
    let s_start = start_of(source);
    let t_start = if prior {
        None
    } else {
        start_of(target)
    };
    let ghost s = source_part(*source);
    let ghost t = target_part(*source, *target, prior);
    let ghost old_blocks = system.blocks@;
    let ghost old_segments = system.segments@;
    let ghost dim = system.dim as int;
    let ghost mut pairs: Seq<(Participant, Participant)> = Seq::empty();
    match s_start {
        Some(ss) => {
            system.blocks.push(
                Block { row: ss, col: ss, rows: ds, cols: ds, values: sub_block(local_h, d, 0, 0, ds, ds) },
            );
            proof {
                pairs = pairs.push((s, s));
            }
            match t_start {
                Some(ts) => {
                    system.blocks.push(
                        Block {
                            row: ss,
                            col: ts,
                            rows: ds,
                            cols: dt,
                            values: sub_block(local_h, d, 0, ds, ds, dt),
                        },
                    );
                    proof {
                        pairs = pairs.push((s, t));
                    }
                },
                None => {},
            }
        },
        None => {},
    }
    assert(pairs =~= free_pair(s, s) + free_pair(s, t));
    assert(system.blocks@.len() == old_blocks.len() + pairs.len());
    assert(system.blocks@.take(old_blocks.len() as int) =~= old_blocks);
    assert forall|j: int| 0 <= j < pairs.len() implies is_sub_block(
        #[trigger] system.blocks@[old_blocks.len() + j],
        local_h@,
        d as int,
        pairs[j].0,
        pairs[j].1,
    ) by {}
    let ghost first_pairs = pairs;
    let ghost first_blocks = system.blocks@;
    match t_start {
        Some(ts) => {
            match s_start {
                Some(ss) => {
                    system.blocks.push(
                        Block {
                            row: ts,
                            col: ss,
                            rows: dt,
                            cols: ds,
                            values: sub_block(local_h, d, ds, 0, dt, ds),
                        },
                    );
                    proof {
                        pairs = pairs.push((t, s));
                    }
                },
                None => {},
            }
            system.blocks.push(
                Block {
                    row: ts,
                    col: ts,
                    rows: dt,
                    cols: dt,
                    values: sub_block(local_h, d, ds, ds, dt, dt),
                },
            );
            proof {
                pairs = pairs.push((t, t));
            }
        },
        None => {},
    }
    assert(pairs =~= block_pairs(*source, *target, prior));
    assert(system.blocks@.len() == old_blocks.len() + pairs.len());
    assert(system.blocks@.take(old_blocks.len() as int) =~= old_blocks);
    assert forall|j: int| 0 <= j < pairs.len() implies is_sub_block(
        #[trigger] system.blocks@[old_blocks.len() + j],
        local_h@,
        d as int,
        pairs[j].0,
        pairs[j].1,
    ) by {
        if j < first_pairs.len() {
            assert(system.blocks@[old_blocks.len() + j] == first_blocks[old_blocks.len() + j]);
            assert(pairs[j] == first_pairs[j]);
        }
    }
    assert forall|i: int| 0 <= i < system.blocks@.len() implies (#[trigger] system.blocks@[i]).fits(
        dim,
    ) by {
        if i < old_blocks.len() {
            assert(system.blocks@[i] == old_blocks[i]);
        } else {
            let j = i - old_blocks.len();
            assert(is_sub_block(
                system.blocks@[old_blocks.len() + j],
                local_h@,
                d as int,
                pairs[j].0,
                pairs[j].1,
            ));
        }
    }
    let ghost mut parts: Seq<Participant> = Seq::empty();
    match s_start {
        Some(ss) => {
            system.segments.push(Segment { row: ss, values: sub_vector(local_b, 0, ds) });
            proof {
                parts = parts.push(s);
            }
        },
        None => {},
    }
    match t_start {
        Some(ts) => {
            system.segments.push(Segment { row: ts, values: sub_vector(local_b, ds, dt) });
            proof {
                parts = parts.push(t);
            }
        },
        None => {},
    }
    assert(parts =~= segment_parts(*source, *target, prior));
    assert(system.segments@.take(old_segments.len() as int) =~= old_segments);
    assert forall|i: int| 0 <= i < system.segments@.len() implies (
    #[trigger] system.segments@[i]).fits(dim) by {
        if i < old_segments.len() {
            assert(system.segments@[i] == old_segments[i]);
        }
    }
    true
}

/// Where a block lies and how large it is: its first row, its first column, the number
/// of its rows and the number of its columns.
pub type Place = (int, int, int, int);

/// Where a segment lies and how long it is.
pub type Stretch = (int, int);

/// Where the blocks of a system lie.
pub open spec fn block_places(blocks: Seq<Block>) -> Seq<Place> {
    Seq::new(
        blocks.len(),
        |i: int| (blocks[i].row as int, blocks[i].col as int, blocks[i].rows as int, blocks[i].cols as int),
    )
}

/// Where the segments of a system lie.
pub open spec fn segment_stretches(segments: Seq<Segment>) -> Seq<Stretch> {
    Seq::new(segments.len(), |i: int| (segments[i].row as int, segments[i].values@.len() as int))
}

/// Where the blocks lie that a factor contributes.
pub open spec fn factor_places(source: Variable, target: Variable, prior: bool) -> Seq<Place> {
    let pairs = block_pairs(source, target, prior);
    Seq::new(
        pairs.len(),
        |j: int| (pairs[j].0.start, pairs[j].1.start, pairs[j].0.dim, pairs[j].1.dim),
    )
}

/// Where the segments lie that a factor contributes.
pub open spec fn factor_stretches(source: Variable, target: Variable, prior: bool) -> Seq<Stretch> {
    let parts = segment_parts(source, target, prior);
    Seq::new(parts.len(), |j: int| (parts[j].start, parts[j].dim))
}

/// Where the blocks lie that the first `count` of some factors contribute.
pub open spec fn places_upto(variables: Seq<Variable>, links: Seq<Link>, count: int) -> Seq<Place>
    decreases count,
{
    if count <= 0 {
        Seq::empty()
    } else {
        places_upto(variables, links, count - 1) + factor_places(
            variables[links[count - 1].0 as int],
            variables[links[count - 1].1 as int],
            links[count - 1].2.factor_type.spec_is_prior(),
        )
    }
}

/// Where the segments lie that the first `count` of some factors contribute.
pub open spec fn stretches_upto(variables: Seq<Variable>, links: Seq<Link>, count: int) -> Seq<
    Stretch,
>
    decreases count,
{
    if count <= 0 {
        Seq::empty()
    } else {
        stretches_upto(variables, links, count - 1) + factor_stretches(
            variables[links[count - 1].0 as int],
            variables[links[count - 1].1 as int],
            links[count - 1].2.factor_type.spec_is_prior(),
        )
    }
}

/// Whether a factor between these variables adds anything to the linear system: whether
/// a variable that it touches is not fixed.
pub open spec fn contributes(source: Variable, target: Variable, prior: bool) -> bool {
    source_part(source).free || target_part(source, target, prior).free
}

/// Whether the arithmetic answered `products` when it was asked to linearize a factor
/// that holds what `factor` says, between these variables.
pub open spec fn linearized<N: Numerics>(
    numerics: &N,
    factor: FactorView,
    source: Variable,
    target: Variable,
    products: (Vec<u64>, Vec<u64>),
) -> bool {
    exists|asked: Factor|
        asked@ == factor && #[trigger] call_ensures(
            N::linearize,
            (numerics, &asked, &source, &target),
            products,
        )
}

/// Whether a linearization has the size of the factor's Jacobian.
pub open spec fn fits_factor(
    source: Variable,
    target: Variable,
    prior: bool,
    products: (Vec<u64>, Vec<u64>),
) -> bool {
    &&& products.0@.len() == local_size(source, target, prior) * local_size(source, target, prior)
    &&& products.1@.len() == local_size(source, target, prior)
}

/// Whether the blocks from position `first_block` on and the segments from position
/// `first_segment` on are the share of a factor with the linearization `products`: for
/// each pair of variables that are not fixed the block of the matrix that belongs to the
/// pair, and for each such variable the part of the vector that belongs to it.
pub open spec fn share_of(
    blocks: Seq<Block>,
    segments: Seq<Segment>,
    first_block: int,
    first_segment: int,
    source: Variable,
    target: Variable,
    prior: bool,
    products: (Vec<u64>, Vec<u64>),
) -> bool {
    let pairs = block_pairs(source, target, prior);
    let parts = segment_parts(source, target, prior);
    &&& fits_factor(source, target, prior, products)
    &&& 0 <= first_block
    &&& first_block + pairs.len() <= blocks.len()
    &&& 0 <= first_segment
    &&& first_segment + parts.len() <= segments.len()
    &&& forall|j: int|
        0 <= j < pairs.len() ==> is_sub_block(
            #[trigger] blocks[first_block + j],
            products.0@,
            local_size(source, target, prior),
            pairs[j].0,
            pairs[j].1,
        )
    &&& forall|j: int|
        0 <= j < parts.len() ==> is_sub_segment(
            #[trigger] segments[first_segment + j],
            products.1@,
            parts[j],
        )
}

/// Whether the blocks and segments hold, for the factor at position `n`, the share of a
/// linearization that the arithmetic answered for that factor.
pub open spec fn holds_share<N: Numerics>(
    numerics: &N,
    variables: Seq<Variable>,
    links: Seq<Link>,
    blocks: Seq<Block>,
    segments: Seq<Segment>,
    n: int,
) -> bool {
    let source = variables[links[n].0 as int];
    let target = variables[links[n].1 as int];
    let prior = links[n].2.factor_type.spec_is_prior();
    exists|products: (Vec<u64>, Vec<u64>)|
        #[trigger] linearized(numerics, links[n].2, source, target, products) && share_of(
            blocks,
            segments,
            places_upto(variables, links, n).len() as int,
            stretches_upto(variables, links, n).len() as int,
            source,
            target,
            prior,
            products,
        )
}

/// Whether the arithmetic answered, for the factor at position `n`, a linearization of
/// the wrong size.
pub open spec fn misfits<N: Numerics>(
    numerics: &N,
    variables: Seq<Variable>,
    links: Seq<Link>,
    n: int,
) -> bool {
    let source = variables[links[n].0 as int];
    let target = variables[links[n].1 as int];
    let prior = links[n].2.factor_type.spec_is_prior();
    exists|products: (Vec<u64>, Vec<u64>)|
        #[trigger] linearized(numerics, links[n].2, source, target, products) && !fits_factor(
            source,
            target,
            prior,
            products,
        )
}

/// Whether the factor at position `n` touches a variable that is not fixed.
pub open spec fn link_contributes(variables: Seq<Variable>, links: Seq<Link>, n: int) -> bool {
    &&& 0 <= n < links.len()
    &&& links[n].0 < variables.len()
    &&& links[n].1 < variables.len()
    &&& contributes(
        variables[links[n].0 as int],
        variables[links[n].1 as int],
        links[n].2.factor_type.spec_is_prior(),
    )
}

/// The share of a factor stays where blocks and segments are added behind it.
proof fn lemma_share_stays<N: Numerics>(
    numerics: &N,
    variables: Seq<Variable>,
    links: Seq<Link>,
    blocks: Seq<Block>,
    segments: Seq<Segment>,
    more_blocks: Seq<Block>,
    more_segments: Seq<Segment>,
    n: int,
)
    requires
        holds_share(numerics, variables, links, blocks, segments, n),
        blocks.len() <= more_blocks.len(),
        segments.len() <= more_segments.len(),
        more_blocks.take(blocks.len() as int) == blocks,
        more_segments.take(segments.len() as int) == segments,
    ensures
        holds_share(numerics, variables, links, more_blocks, more_segments, n),
{
    let source = variables[links[n].0 as int];
    let target = variables[links[n].1 as int];
    let prior = links[n].2.factor_type.spec_is_prior();
    let first_block = places_upto(variables, links, n).len() as int;
    let first_segment = stretches_upto(variables, links, n).len() as int;
    let products = choose|products: (Vec<u64>, Vec<u64>)|
        #[trigger] linearized(numerics, links[n].2, source, target, products) && share_of(
            blocks,
            segments,
            first_block,
            first_segment,
            source,
            target,
            prior,
            products,
        );
    let pairs = block_pairs(source, target, prior);
    let parts = segment_parts(source, target, prior);
    assert forall|j: int| 0 <= j < pairs.len() implies is_sub_block(
        #[trigger] more_blocks[first_block + j],
        products.0@,
        local_size(source, target, prior),
        pairs[j].0,
        pairs[j].1,
    ) by {
        assert(more_blocks.take(blocks.len() as int)[first_block + j] == blocks[first_block + j]);
        assert(is_sub_block(
            blocks[first_block + j],
            products.0@,
            local_size(source, target, prior),
            pairs[j].0,
            pairs[j].1,
        ));
    }
    assert forall|j: int| 0 <= j < parts.len() implies is_sub_segment(
        #[trigger] more_segments[first_segment + j],
        products.1@,
        parts[j],
    ) by {
        assert(more_segments.take(segments.len() as int)[first_segment + j]
            == segments[first_segment + j]);
        assert(is_sub_segment(segments[first_segment + j], products.1@, parts[j]));
    }
    assert(share_of(
        more_blocks,
        more_segments,
        first_block,
        first_segment,
        source,
        target,
        prior,
        products,
    ));
}

/// Whether one of the first `count` of some factors touches a variable that is not
/// fixed.
pub open spec fn any_contributes(variables: Seq<Variable>, links: Seq<Link>, count: int) -> bool {
    exists|n: int| n < count && #[trigger] link_contributes(variables, links, n)
}

/// Whether a linear system is what the factors of a graph make with the arithmetic: it
/// has the graph's number of rows, and factor by factor, in the order in which the graph
/// hands its factors out, the share of a linearization that the arithmetic answered for
/// the factor, if the factor touches a variable that is not fixed.
pub open spec fn assembled<N: Numerics>(numerics: &N, graph: GraphView, system: LinearSystem) -> bool {
    &&& system.wf()
    &&& system.dim == graph.dim
    &&& block_places(system.blocks@) == places_upto(
        graph.variables,
        graph.links(),
        graph.links().len() as int,
    )
    &&& segment_stretches(system.segments@) == stretches_upto(
        graph.variables,
        graph.links(),
        graph.links().len() as int,
    )
    &&& forall|n: int| #[trigger]
        link_contributes(graph.variables, graph.links(), n) ==> holds_share(
            numerics,
            graph.variables,
            graph.links(),
            system.blocks@,
            system.segments@,
            n,
        )
}

/// Builds the linear system of a factor graph at the current values of its variables.
///
/// The system has the graph's number of rows. Factor by factor, in the order in which the
/// graph hands its factors out, it holds the blocks and segments of the factor's
/// linearization that belong to variables which are not fixed, each where the rows of
/// these variables lie. A factor between fixed variables adds nothing, and is not
/// linearized. There is no system if a linearization comes back with the wrong size; so
/// there is one where no factor touches a variable that is not fixed.
#[allow(non_snake_case)]
pub fn calculate_H_b<N: Numerics>(factor_graph: &FactorGraph, numerics: &N) -> (system: Option<
    LinearSystem,
>)
    requires
        factor_graph.wf(),
    ensures
        !any_contributes(
            factor_graph@.variables,
            factor_graph@.links(),
            factor_graph@.links().len() as int,
        ) ==> system is Some,
        system is Some ==> assembled(numerics, factor_graph@, system->0),
        system is None ==> exists|n: int| #[trigger]
            link_contributes(factor_graph@.variables, factor_graph@.links(), n) && misfits(
                numerics,
                factor_graph@.variables,
                factor_graph@.links(),
                n,
            ),
{
    let dim = factor_graph.matrix_dim();
    let mut system = LinearSystem::new(dim);
    let all = factor_graph.factors();
    let ghost variables = factor_graph@.variables;
    let ghost links = factor_graph@.links();
    let mut n: usize = 0;
    assert(block_places(system.blocks@) =~= places_upto(variables, links, 0));
    assert(segment_stretches(system.segments@) =~= stretches_upto(variables, links, 0));
    while n < all.len()
        invariant
            factor_graph.wf(),
            variables == factor_graph@.variables,
            links == factor_graph@.links(),
            all@.len() == links.len(),
            forall|m: int|
                0 <= m < all@.len() ==> (#[trigger] all@[m]).0 == links[m].0 && all@[m].1 == links[m].1
                    && all@[m].2@ == links[m].2 && factor_ok(
                    variables,
                    all@[m].0 as int,
                    all@[m].1 as int,
                    all@[m].2@,
                ),
            n <= all@.len(),
            system.wf(),
            system.dim == factor_graph@.dim,
            block_places(system.blocks@) == places_upto(variables, links, n as int),
            segment_stretches(system.segments@) == stretches_upto(variables, links, n as int),
            forall|m: int| #[trigger]
                link_contributes(variables, links, m) && m < n ==> holds_share(
                    numerics,
                    variables,
                    links,
                    system.blocks@,
                    system.segments@,
                    m,
                ),
        decreases all@.len() - n,
    {
        let (a, t, factor) = all[n];
        assert(factor_ok(
            variables,
            all@[n as int].0 as int,
            all@[n as int].1 as int,
            all@[n as int].2@,
        ));
        let source = factor_graph.get_var(a);
        let target = factor_graph.get_var(t);
        let prior = factor.factor_type.is_prior();
        let touches_free = start_of(source).is_some() || (!prior && start_of(target).is_some());
        if !touches_free {
            proof {
                assert(block_pairs(*source, *target, prior) =~= Seq::empty());
                assert(segment_parts(*source, *target, prior) =~= Seq::empty());
                assert(places_upto(variables, links, n + 1) =~= places_upto(
                    variables,
                    links,
                    n as int,
                ));
                assert(stretches_upto(variables, links, n + 1) =~= stretches_upto(
                    variables,
                    links,
                    n as int,
                ));
            }
            n += 1;
            continue;
        }
        assert(link_contributes(variables, links, n as int));
        let products = numerics.linearize(factor, source, target);
        let local_h = &products.0;
        let local_b = &products.1;
        proof {
            assert(linearized(numerics, links[n as int].2, *source, *target, products)) by {
                assert(call_ensures(N::linearize, (numerics, factor, source, target), products));
            }
            if !source.fixed_type().is_fixed() {
                lemma_range_within(variables, system.dim as int, a as int);
            }
            if !target.fixed_type().is_fixed() {
                lemma_range_within(variables, system.dim as int, t as int);
            }
        }
        let ghost old_blocks = system.blocks@;
        let ghost old_segments = system.segments@;
        if !update_H_b(&mut system, source, target, prior, local_h, local_b) {
            assert(link_contributes(variables, links, n as int));
            assert(misfits(numerics, variables, links, n as int));
            return None;
        }
        proof {
            let pairs = block_pairs(*source, *target, prior);
            let parts = segment_parts(*source, *target, prior);
            assert(block_places(old_blocks).len() == old_blocks.len());
            assert(segment_stretches(old_segments).len() == old_segments.len());
            assert(share_of(
                system.blocks@,
                system.segments@,
                places_upto(variables, links, n as int).len() as int,
                stretches_upto(variables, links, n as int).len() as int,
                *source,
                *target,
                prior,
                products,
            ));
            assert(holds_share(numerics, variables, links, system.blocks@, system.segments@, n as int));
            assert forall|m: int| #[trigger]
                link_contributes(variables, links, m) && m < n implies holds_share(
                numerics,
                variables,
                links,
                system.blocks@,
                system.segments@,
                m,
            ) by {
                lemma_share_stays(
                    numerics,
                    variables,
                    links,
                    old_blocks,
                    old_segments,
                    system.blocks@,
                    system.segments@,
                    m,
                );
            }
            assert(block_places(system.blocks@) =~= block_places(old_blocks) + factor_places(
                *source,
                *target,
                prior,
            )) by {
                assert forall|i: int| 0 <= i < system.blocks@.len() implies block_places(
                    system.blocks@,
                )[i] == (block_places(old_blocks) + factor_places(*source, *target, prior))[i] by {
                    if i < old_blocks.len() {
                        assert(system.blocks@.take(old_blocks.len() as int)[i] == old_blocks[i]);
                    } else {
                        let j = i - old_blocks.len();
                        assert(is_sub_block(
                            system.blocks@[old_blocks.len() + j],
                            local_h@,
                            local_size(*source, *target, prior),
                            pairs[j].0,
                            pairs[j].1,
                        ));
                    }
                }
            }
            assert(segment_stretches(system.segments@) =~= segment_stretches(old_segments)
                + factor_stretches(*source, *target, prior)) by {
                assert forall|i: int| 0 <= i < system.segments@.len() implies segment_stretches(
                    system.segments@,
                )[i] == (segment_stretches(old_segments) + factor_stretches(
                    *source,
                    *target,
                    prior,
                ))[i] by {
                    if i < old_segments.len() {
                        assert(system.segments@.take(old_segments.len() as int)[i]
                            == old_segments[i]);
                    } else {
                        let j = i - old_segments.len();
                        assert(is_sub_segment(
                            system.segments@[old_segments.len() + j],
                            local_b@,
                            parts[j],
                        ));
                    }
                }
            }
        }
        n += 1;
    }
    Some(system)
}

/// Factors between fixed variables contribute nothing: where every variable of a graph
/// is fixed, its linear system has neither blocks nor segments.
pub proof fn lemma_fixed_contribute_nothing(variables: Seq<Variable>, links: Seq<Link>, count: int)
    requires
        0 <= count <= links.len(),
        forall|n: int|
            0 <= n < links.len() ==> 0 <= (#[trigger] links[n]).0 < variables.len() && 0 <= links[n].1
                < variables.len(),
        forall|i: int| 0 <= i < variables.len() ==> (#[trigger] variables[i]).fixed_type().is_fixed(),
    ensures
        places_upto(variables, links, count) == Seq::<Place>::empty(),
        stretches_upto(variables, links, count) == Seq::<Stretch>::empty(),
    decreases count,
{
    if count > 0 {
        lemma_fixed_contribute_nothing(variables, links, count - 1);
        let link = links[count - 1];
        let source = variables[link.0 as int];
        let target = variables[link.1 as int];
        let prior = link.2.factor_type.spec_is_prior();
        assert(block_pairs(source, target, prior) =~= Seq::empty());
        assert(segment_parts(source, target, prior) =~= Seq::empty());
        assert(places_upto(variables, links, count) =~= Seq::<Place>::empty());
        assert(stretches_upto(variables, links, count) =~= Seq::<Stretch>::empty());
    }
}

/// The negative of a double-precision number that is held as its bit pattern: the number
/// with the other sign, which is the pattern with its leading bit turned.
pub open spec fn negated(value: u64) -> u64 {
    value ^ 0x8000_0000_0000_0000u64
}

/// The negative of a number.
pub fn negate(value: u64) -> (negative: u64)
    ensures
        negative == negated(value),
{
    value ^ 0x8000_0000_0000_0000u64
}

/// The negative of the negative of a number is the number.
pub proof fn lemma_negated_twice(value: u64)
    ensures
        negated(negated(value)) == value,
{
    assert((value ^ 0x8000_0000_0000_0000u64) ^ 0x8000_0000_0000_0000u64 == value) by (bit_vector);
}

/// The negatives of some numbers.
pub open spec fn all_negated(values: Seq<u64>) -> Seq<u64> {
    Seq::new(values.len(), |j: int| negated(values[j]))
}

/// Whether a linear system is another with the negative right-hand side: the same rows
/// and blocks, and segment by segment the negatives of the other's scalars.
pub open spec fn turned(before: LinearSystem, after: LinearSystem) -> bool {
    &&& after.dim == before.dim
    &&& after.blocks == before.blocks
    &&& after.segments@.len() == before.segments@.len()
    &&& forall|i: int|
        0 <= i < before.segments@.len() ==> (#[trigger] after.segments@[i]).row
            == before.segments@[i].row && after.segments@[i].values@ == all_negated(
            before.segments@[i].values@,
        )
}

/// Replaces each scalar of the right-hand side by its negative. The segments stay where
/// they are, and so do the blocks.
pub fn negate_b(system: &mut LinearSystem)
    requires
        old(system).wf(),
    ensures
        final(system).wf(),
        turned(*old(system), *final(system)),
        segment_stretches(final(system).segments@) == segment_stretches(old(system).segments@),
{
    let mut turned: Vec<Segment> = Vec::new();
    let mut i: usize = 0;
    while i < system.segments.len()
        invariant
            system.wf(),
            *system == *old(system),
            i <= system.segments@.len(),
            turned@.len() == i,
            forall|k: int|
                0 <= k < i ==> (#[trigger] turned@[k]).row == system.segments@[k].row
                    && turned@[k].values@ == all_negated(system.segments@[k].values@),
        decreases system.segments@.len() - i,
    {
        let segment = &system.segments[i];
        let mut values: Vec<u64> = Vec::new();
        let mut j: usize = 0;
        while j < segment.values.len()
            invariant
                j <= segment.values@.len(),
                values@ == all_negated(segment.values@).take(j as int),
            decreases segment.values@.len() - j,
        {
            values.push(negate(segment.values[j]));
            assert(values@ =~= all_negated(segment.values@).take(j + 1));
            j += 1;
        }
        assert(values@ =~= all_negated(segment.values@));
        turned.push(Segment { row: segment.row, values });
        i += 1;
    }
    let ghost before = system.segments@;
    system.segments = turned;
    proof {
        assert(segment_stretches(system.segments@) =~= segment_stretches(before));
        assert forall|k: int| 0 <= k < system.segments@.len() implies (
        #[trigger] system.segments@[k]).fits(system.dim as int) by {
            assert(before[k].fits(system.dim as int));
        }
    }
}

/// Where the matrix of a factor's linearization is symmetric, the block that the factor
/// contributes for one variable and another is the transpose of the block that it
/// contributes for the other and the one.
pub proof fn lemma_blocks_mirror(
    first: Block,
    second: Block,
    local: Seq<u64>,
    d: int,
    p: Participant,
    q: Participant,
)
    requires
        is_sub_block(first, local, d, p, q),
        is_sub_block(second, local, d, q, p),
        forall|i: int, j: int| 0 <= i < d && 0 <= j < d ==> #[trigger] entry(local, d, i, j) == entry(local, d, j, i),
        0 <= p.offset,
        0 <= q.offset,
        p.offset + p.dim <= d,
        q.offset + q.dim <= d,
    ensures
        first.row == second.col,
        first.col == second.row,
        first.rows == second.cols,
        first.cols == second.rows,
        forall|r: int, c: int|
            0 <= r < p.dim && 0 <= c < q.dim ==> #[trigger] entry(first.values@, p.dim, r, c) == entry(
                second.values@,
                q.dim,
                c,
                r,
            ),
{
    assert forall|r: int, c: int| 0 <= r < p.dim && 0 <= c < q.dim implies #[trigger] entry(
        first.values@,
        p.dim,
        r,
        c,
    ) == entry(second.values@, q.dim, c, r) by {
        assert(entry(second.values@, q.dim, c, r) == entry(local, d, q.offset + c, p.offset + r));
        assert(entry(local, d, p.offset + r, q.offset + c) == entry(
            local,
            d,
            q.offset + c,
            p.offset + r,
        ));
    }
}

/// With each block that a factor contributes for one variable and another, it
/// contributes one for the other and the one: both triangles of the matrix are filled.
pub proof fn lemma_pairs_mirror(source: Variable, target: Variable, prior: bool, j: int)
    requires
        0 <= j < block_pairs(source, target, prior).len(),
    ensures
        exists|k: int|
            0 <= k < block_pairs(source, target, prior).len() && (#[trigger] block_pairs(
                source,
                target,
                prior,
            )[k]).0 == block_pairs(source, target, prior)[j].1 && block_pairs(source, target, prior)[k].1
                == block_pairs(source, target, prior)[j].0,
{
    let pairs = block_pairs(source, target, prior);
    let s = source_part(source);
    let t = target_part(source, target, prior);
    if s.free && t.free {
        assert(pairs =~= seq![(s, s), (s, t), (t, s), (t, t)]);
        if j == 0 {
            assert(pairs[0].0 == pairs[j].1);
        } else if j == 1 {
            assert(pairs[2].0 == pairs[j].1);
        } else if j == 2 {
            assert(pairs[1].0 == pairs[j].1);
        } else {
            assert(pairs[3].0 == pairs[j].1);
        }
    } else if s.free {
        assert(pairs =~= seq![(s, s)]);
        assert(pairs[0].0 == pairs[j].1);
    } else if t.free {
        assert(pairs =~= seq![(t, t)]);
        assert(pairs[0].0 == pairs[j].1);
    } else {
        assert(pairs =~= Seq::empty());
    }
}

} // verus!
