//! The brute-force search: engines that enumerate candidate operation logs
//! over fixed partition topologies, and the evaluator that replays a log on a
//! fresh canvas while accumulating operation cost.

use vstd::prelude::*;
use vstd::string::StringExecFns;
use crate::canvas::{
    base_cost, child_id_chars, cost_id, cut_new_entries, cut_valid, has_key, initial_entries,
    is_first_key, lemma_first_key_exists, lemma_rounded_div_bounds, rounded_div, upsert_all,
    upsert_one, BlockV, Cut, Entries, Picture,
};
use crate::canvas::first_key_index;
use crate::color::Color;
use crate::error::EditError;
use crate::geometry::{Point, Shape};
use crate::ops::Operation;
use crate::sampler::{spec_region_color, Problem, Raster};

verus! {

/// An ordered sequence of operations, replayable from the initial canvas.
pub type Log = Vec<Operation>;

/// The cost of one operation against the entries, when every referenced
/// identifier is present.
pub open spec fn spec_op_cost(oe: Entries, w: int, h: int, op: Operation) -> Option<int> {
    match op {
        Operation::Merge { id1, id2 } => if has_key(oe, id1@) && has_key(oe, id2@) {
            Some(
                rounded_div(
                    base_cost(op) * w * h,
                    oe[first_key_index(oe, id1@)].1.shape().spec_area() + oe[first_key_index(
                        oe,
                        id2@,
                    )].1.shape().spec_area(),
                ),
            )
        } else {
            None
        },
        _ => if has_key(oe, cost_id(op)) {
            Some(
                rounded_div(
                    base_cost(op) * w * h,
                    oe[first_key_index(oe, cost_id(op))].1.shape().spec_area(),
                ),
            )
        } else {
            None
        },
    }
}

/// The entries after a cut, when the identifier is present and the cut is
/// strictly interior.
pub open spec fn spec_apply_cut(oe: Entries, id: Seq<char>, cut: Cut) -> Option<Entries> {
    if has_key(oe, id) {
        let i = first_key_index(oe, id);
        if cut_valid(oe[i].1.shape(), cut) {
            Some(upsert_all(oe.remove(i), cut_new_entries(id, oe[i].1, cut)))
        } else {
            None
        }
    } else {
        None
    }
}

/// The entries after one operation, when it succeeds.
pub open spec fn spec_apply(oe: Entries, op: Operation) -> Option<Entries> {
    match op {
        Operation::Color { id, color } => if has_key(oe, id@) {
            let i = first_key_index(oe, id@);
            Some(oe.remove(i).push((id@, BlockV::Leaf { shape: oe[i].1.shape(), color })))
        } else {
            None
        },
        Operation::PCut { id, point } => spec_apply_cut(oe, id@, Cut::P(point)),
        Operation::XCut { id, x } => spec_apply_cut(oe, id@, Cut::X(x)),
        Operation::YCut { id, y } => spec_apply_cut(oe, id@, Cut::Y(y)),
        Operation::Swap { id1, id2 } => if has_key(oe, id1@) && has_key(oe, id2@) {
            let i = first_key_index(oe, id1@);
            let j = first_key_index(oe, id2@);
            if oe[i].1.shape().spec_same_size(oe[j].1.shape()) {
                Some(
                    oe.update(i, (id1@, oe[i].1.with_shape(oe[j].1.shape()))).update(
                        j,
                        (id2@, oe[j].1.with_shape(oe[i].1.shape())),
                    ),
                )
            } else {
                None
            }
        } else {
            None
        },
        Operation::Merge { .. } => None,
    }
}

/// The replay of a log: the summed cost of each operation against its
/// pre-operation entries, and the final entries; none when any operation
/// fails.
pub open spec fn replay_spec(oe: Entries, w: int, h: int, log: Seq<Operation>) -> Option<
    (int, Entries),
>
    decreases log.len(),
{
    if log.len() == 0 {
        Some((0, oe))
    } else {
        match spec_op_cost(oe, w, h, log[0]) {
            None => None,
            Some(c) => match spec_apply(oe, log[0]) {
                None => None,
                Some(ne) => match replay_spec(ne, w, h, log.drop_first()) {
                    None => None,
                    Some(pr) => Some((c + pr.0, pr.1)),
                },
            },
        }
    }
}

/// A replay result with the given cost added to its cost.
pub open spec fn shift_cost(c: int, r: Option<(int, Entries)>) -> Option<(int, Entries)> {
    match r {
        None => None,
        Some(pr) => Some((c + pr.0, pr.1)),
    }
}

/// Every identifier that is present among the entries has a first entry.
proof fn lemma_all_first_keys(oe: Entries)
    ensures
        forall|id: Seq<char>| has_key(oe, id) ==> exists|i: int| is_first_key(oe, id, i),
{
    assert forall|id: Seq<char>| has_key(oe, id) implies exists|i: int|
        is_first_key(oe, id, i) by {
        lemma_first_key_exists(oe, id);
    }
}

/// Replay the log on a copy of the starting canvas: before each operation
/// its cost against the pre-operation canvas is accumulated, then the
/// operation is applied. Any failure aborts the candidate and is returned.
pub fn replay(initial: &Picture, log: &Log) -> (res: Result<(u64, Picture), EditError>)
    requires
        initial.wf(),
        log@.len() <= 0x1000_0000,
    ensures
        match res {
            Ok(pr) => {
                &&& replay_spec(
                    initial.entries(),
                    initial.width as int,
                    initial.height as int,
                    log@,
                ) == Some((pr.0 as int, pr.1.entries()))
                &&& pr.1.wf()
                &&& pr.1.width == initial.width
                &&& pr.1.height == initial.height
            },
            Err(e) => replay_spec(
                initial.entries(),
                initial.width as int,
                initial.height as int,
                log@,
            ) is None,
        },
{
    let ghost w = initial.width as int;
    let ghost h = initial.height as int;
    let ghost ie = initial.entries();
    let mut pic = initial.duplicate();
    let mut cost_sum: u64 = 0;
    let mut i: usize = 0;
    proof {
        assert(log@.skip(0) =~= log@);
    }
    while i < log.len()
        invariant
            pic.wf(),
            pic.width == initial.width,
            pic.height == initial.height,
            w == initial.width as int,
            h == initial.height as int,
            ie == initial.entries(),
            i <= log@.len(),
            log@.len() <= 0x1000_0000,
            cost_sum <= i * 0x8000_0000u64,
            replay_spec(ie, w, h, log@) == shift_cost(
                cost_sum as int,
                replay_spec(pic.entries(), w, h, log@.skip(i as int)),
            ),
        decreases log@.len() - i,
    {
        let ghost cur = pic.entries();
        proof {
            assert(log@.skip(i as int)[0] == log@[i as int]);
            assert(log@.skip(i as int).drop_first() =~= log@.skip(i + 1));
        }
        let op = &log[i];
        let c = match pic.cost(op) {
            Err(e) => {
                proof {
                    assert(spec_op_cost(cur, w, h, log@[i as int]) is None);
                    assert(replay_spec(cur, w, h, log@.skip(i as int)) is None);
                }
                return Err(e);
            },
            Ok(c) => c,
        };
        proof {
            let opv = log@[i as int];
            lemma_all_first_keys(cur);
            assert(spec_op_cost(cur, w, h, opv) == Some(c as int));
        }
        match pic.apply(op) {
            Err(e) => {
                proof {
                    let opv = log@[i as int];
                    lemma_all_first_keys(cur);
                    assert(spec_apply(cur, opv) is None);
                    assert(replay_spec(cur, w, h, log@.skip(i as int)) is None);
                }
                return Err(e);
            },
            Ok(()) => {},
        }
        proof {
            let opv = log@[i as int];
            lemma_all_first_keys(cur);
            assert(spec_apply(cur, opv) == Some(pic.entries()));
            let bi = first_key_index(cur, cost_id(opv));
            assert(cur[bi].1.wf(w, h));
            let area = cur[bi].1.shape().spec_area();
            assert(1 <= area) by (nonlinear_arith)
                requires
                    cur[bi].1.shape().valid(),
                    area == cur[bi].1.shape().spec_width() * cur[bi].1.shape().spec_height(),
            ;
            assert(base_cost(opv) * w * h <= 10 * w * h) by (nonlinear_arith)
                requires
                    1 <= base_cost(opv) <= 10,
                    0 < w,
                    0 < h,
            ;
            lemma_rounded_div_bounds(base_cost(opv) * w * h, area);
            assert(c <= 0x8000_0000u64);
            assert(replay_spec(cur, w, h, log@.skip(i as int)) == shift_cost(
                c as int,
                replay_spec(pic.entries(), w, h, log@.skip(i + 1)),
            ));
            assert(shift_cost(
                cost_sum as int,
                shift_cost(c as int, replay_spec(pic.entries(), w, h, log@.skip(i + 1))),
            ) == shift_cost(
                cost_sum + c as int,
                replay_spec(pic.entries(), w, h, log@.skip(i + 1)),
            ));
        }
        cost_sum = cost_sum + c;
        i = i + 1;
    }
    proof {
        assert(log@.skip(log@.len() as int) =~= Seq::<Operation>::empty());
    }
    Ok((cost_sum, pic))
}

/// The operation recolors the block `id` with the color `c`.
pub open spec fn is_color_op(op: Operation, id: Seq<char>, c: Color) -> bool {
    op matches Operation::Color { id: oid, color } && oid@ == id && color == c
}

/// The operation point-cuts the block `id` at `(x, y)`.
pub open spec fn is_pcut_op(op: Operation, id: Seq<char>, x: int, y: int) -> bool {
    op matches Operation::PCut { id: oid, point } && oid@ == id && point.x == x && point.y == y
}

/// The operation vertically cuts the block `id` at `x`.
pub open spec fn is_xcut_op(op: Operation, id: Seq<char>, x: int) -> bool {
    op matches Operation::XCut { id: oid, x: ox } && oid@ == id && ox == x
}

/// The operation horizontally cuts the block `id` at `y`.
pub open spec fn is_ycut_op(op: Operation, id: Seq<char>, y: int) -> bool {
    op matches Operation::YCut { id: oid, y: oy } && oid@ == id && oy == y
}

/// A recolor operation for the engines.
fn color_op(id: &str, c: Color) -> (op: Operation)
    ensures
        is_color_op(op, id@, c),
{
    Operation::Color { id: String::from_str(id), color: c }
}

/// A point-cut operation for the engines.
fn pcut_op(id: &str, x: i32, y: i32) -> (op: Operation)
    ensures
        is_pcut_op(op, id@, x as int, y as int),
{
    Operation::PCut { id: String::from_str(id), point: Point { x, y } }
}

/// A vertical-cut operation for the engines.
fn xcut_op(id: &str, x: i32) -> (op: Operation)
    ensures
        is_xcut_op(op, id@, x as int),
{
    Operation::XCut { id: String::from_str(id), x }
}

/// A horizontal-cut operation for the engines.
fn ycut_op(id: &str, y: i32) -> (op: Operation)
    ensures
        is_ycut_op(op, id@, y as int),
{
    Operation::YCut { id: String::from_str(id), y }
}

/// The coordinates of a four-vertical-cut candidate: step-aligned, in
/// bounds, each at least one step beyond the last.
pub open spec fn xcut_coords_valid(x1: int, x2: int, x3: int, x4: int) -> bool {
    &&& x1 % 10 == 0 && x2 % 10 == 0 && x3 % 10 == 0 && x4 % 10 == 0
    &&& 10 <= x1
    &&& x1 + 10 <= x2
    &&& x2 + 10 <= x3
    &&& x3 + 10 <= x4
    &&& x4 <= 390
}

/// The log of a four-vertical-cut candidate: recolor and cut alternate down
/// the right-hand spine, each region recolored to its representative color.
pub open spec fn xcut_log_shape(log: Seq<Operation>, img: Raster, x1: int, x2: int, x3: int, x4: int) -> bool {
    &&& log.len() == 9
    &&& is_color_op(log[0], "0"@, spec_region_color(img, 0, 0, x1, 400))
    &&& is_xcut_op(log[1], "0"@, x1)
    &&& is_color_op(log[2], "0.1"@, spec_region_color(img, x1, 0, x2, 400))
    &&& is_xcut_op(log[3], "0.1"@, x2)
    &&& is_color_op(log[4], "0.1.1"@, spec_region_color(img, x2, 0, x3, 400))
    &&& is_xcut_op(log[5], "0.1.1"@, x3)
    &&& is_color_op(log[6], "0.1.1.1"@, spec_region_color(img, x3, 0, x4, 400))
    &&& is_xcut_op(log[7], "0.1.1.1"@, x4)
    &&& is_color_op(log[8], "0.1.1.1.1"@, spec_region_color(img, x4, 0, 400, 400))
}

/// Every emitted four-vertical-cut log matches the pattern for some valid
/// coordinates.
pub open spec fn xcut_logs_sound(logs: Seq<Log>, img: Raster) -> bool {
    forall|k: int|
        0 <= k < logs.len() ==> exists|x1: int, x2: int, x3: int, x4: int|
            xcut_coords_valid(x1, x2, x3, x4) && xcut_log_shape(
                (#[trigger] logs[k])@,
                img,
                x1,
                x2,
                x3,
                x4,
            )
}

/// Enumerate four sequential vertical cuts of a 400 by 400 canvas on a step
/// of ten, recoloring each stripe to its representative color.
pub fn algo_xcut(problem: &Problem) -> (logs: Vec<Log>)
    requires
        problem.image.wf(),
        problem.image.width == 400,
        problem.image.height == 400,
    ensures
        xcut_logs_sound(logs@, problem.image),
        forall|k: int|
            0 <= k < logs@.len() ==> replay_spec(
                initial_entries(400, 400),
                400,
                400,
                (#[trigger] logs@[k])@,
            ) is Some,
        forall|wx1: int, wx2: int, wx3: int, wx4: int|
            #[trigger] xcut_coords_valid(wx1, wx2, wx3, wx4) ==> xcut_covered(
                logs@,
                problem.image,
                wx1, wx2, wx3, wx4,
            ),
{
    let mut logs: Vec<Log> = Vec::new();
    let mut x1: i32 = 10;
    while x1 < 370
        invariant
            problem.image.wf(),
            problem.image.width == 400,
            problem.image.height == 400,
            10 <= x1,
            x1 % 10 == 0,
            xcut_logs_sound(logs@, problem.image),
            forall|wx1: int, wx2: int, wx3: int, wx4: int|
                (#[trigger] xcut_coords_valid(wx1, wx2, wx3, wx4) && wx1 < x1)
                    ==> xcut_covered(logs@, problem.image, wx1, wx2, wx3, wx4),
        decreases 370 - x1,
    {
        let mut x2: i32 = x1 + 10;
        while x2 < 380
            invariant
                problem.image.wf(),
                problem.image.width == 400,
                problem.image.height == 400,
                10 <= x1 < 370,
                x1 % 10 == 0,
                x1 + 10 <= x2,
                x2 % 10 == 0,
                xcut_logs_sound(logs@, problem.image),
                forall|wx1: int, wx2: int, wx3: int, wx4: int|
                    (#[trigger] xcut_coords_valid(wx1, wx2, wx3, wx4) && wx1 < x1)
                        ==> xcut_covered(logs@, problem.image, wx1, wx2, wx3, wx4),
                forall|wx2: int, wx3: int, wx4: int|
                    (#[trigger] xcut_coords_valid(x1 as int, wx2, wx3, wx4) && wx2 < x2)
                        ==> xcut_covered(logs@, problem.image, x1 as int, wx2, wx3, wx4),
            decreases 380 - x2,
        {
            let mut x3: i32 = x2 + 10;
            while x3 < 390
                invariant
                    problem.image.wf(),
                    problem.image.width == 400,
                    problem.image.height == 400,
                    10 <= x1 < 370,
                    x1 % 10 == 0,
                    x1 + 10 <= x2 < 380,
                    x2 % 10 == 0,
                    x2 + 10 <= x3,
                    x3 % 10 == 0,
                    xcut_logs_sound(logs@, problem.image),
                    forall|wx1: int, wx2: int, wx3: int, wx4: int|
                        (#[trigger] xcut_coords_valid(wx1, wx2, wx3, wx4) && wx1 < x1)
                            ==> xcut_covered(logs@, problem.image, wx1, wx2, wx3, wx4),
                    forall|wx2: int, wx3: int, wx4: int|
                        (#[trigger] xcut_coords_valid(x1 as int, wx2, wx3, wx4) && wx2 < x2)
                            ==> xcut_covered(logs@, problem.image, x1 as int, wx2, wx3, wx4),
                    forall|wx3: int, wx4: int|
                        (#[trigger] xcut_coords_valid(x1 as int, x2 as int, wx3, wx4) && wx3 < x3)
                            ==> xcut_covered(logs@, problem.image, x1 as int, x2 as int, wx3, wx4),
                decreases 390 - x3,
            {
                let mut x4: i32 = x3 + 10;
                while x4 < 400
                    invariant
                        problem.image.wf(),
                        problem.image.width == 400,
                        problem.image.height == 400,
                        10 <= x1 < 370,
                        x1 % 10 == 0,
                        x1 + 10 <= x2 < 380,
                        x2 % 10 == 0,
                        x2 + 10 <= x3 < 390,
                        x3 % 10 == 0,
                        x3 + 10 <= x4,
                        x4 % 10 == 0,
                        xcut_logs_sound(logs@, problem.image),
                        forall|wx1: int, wx2: int, wx3: int, wx4: int|
                            (#[trigger] xcut_coords_valid(wx1, wx2, wx3, wx4) && wx1 < x1)
                                ==> xcut_covered(logs@, problem.image, wx1, wx2, wx3, wx4),
                        forall|wx2: int, wx3: int, wx4: int|
                            (#[trigger] xcut_coords_valid(x1 as int, wx2, wx3, wx4) && wx2 < x2)
                                ==> xcut_covered(logs@, problem.image, x1 as int, wx2, wx3, wx4),
                        forall|wx3: int, wx4: int|
                            (#[trigger] xcut_coords_valid(x1 as int, x2 as int, wx3, wx4) && wx3 < x3)
                                ==> xcut_covered(logs@, problem.image, x1 as int, x2 as int, wx3, wx4),
                        forall|wx4: int|
                            (#[trigger] xcut_coords_valid(x1 as int, x2 as int, x3 as int, wx4) && wx4 < x4)
                                ==> xcut_covered(logs@, problem.image, x1 as int, x2 as int, x3 as int, wx4),
                    decreases 400 - x4,
                {
                    let c1 = problem.color(0, 0, x1, 400);
                    let c2 = problem.color(x1, 0, x2, 400);
                    let c3 = problem.color(x2, 0, x3, 400);
                    let c4 = problem.color(x3, 0, x4, 400);
                    let c5 = problem.color(x4, 0, 400, 400);
                    let mut log: Log = Vec::new();
                    log.push(color_op("0", c1));
                    log.push(xcut_op("0", x1));
                    log.push(color_op("0.1", c2));
                    log.push(xcut_op("0.1", x2));
                    log.push(color_op("0.1.1", c3));
                    log.push(xcut_op("0.1.1", x3));
                    log.push(color_op("0.1.1.1", c4));
                    log.push(xcut_op("0.1.1.1", x4));
                    log.push(color_op("0.1.1.1.1", c5));
                    proof {
                        assert(xcut_coords_valid(x1 as int, x2 as int, x3 as int, x4 as int));
                        assert(xcut_log_shape(log@, problem.image, x1 as int, x2 as int, x3 as int, x4 as int));
                    }
                    let ghost pre = logs@;
                    let ghost nl = log;
                    logs.push(log);
                    proof {
                        lemma_xcut_covered_push(pre, nl, problem.image);
                        assert(logs@[logs@.len() - 1] == nl);
                        assert(xcut_covered(logs@, problem.image, x1 as int, x2 as int, x3 as int, x4 as int));
                    }
                    proof {
                        assert forall|wx4: int|
                            (#[trigger] xcut_coords_valid(x1 as int, x2 as int, x3 as int, wx4) && wx4 < x4 + 10) implies xcut_covered(
                            logs@,
                            problem.image,
                            x1 as int, x2 as int, x3 as int, wx4,
                        ) by {
                            if wx4 < x4 {
                            } else {
                                assert(wx4 == x4);
                                assert(xcut_covered(logs@, problem.image, x1 as int, x2 as int, x3 as int, wx4));
                            }
                        }
                    }
                    x4 = x4 + 10;
                }
                proof {
                    assert forall|wx3: int, wx4: int|
                        (#[trigger] xcut_coords_valid(x1 as int, x2 as int, wx3, wx4) && wx3 < x3 + 10) implies xcut_covered(
                        logs@,
                        problem.image,
                        x1 as int, x2 as int, wx3, wx4,
                    ) by {
                        if wx3 < x3 {
                        } else {
                            assert(wx3 == x3);
                            assert(xcut_coords_valid(x1 as int, x2 as int, x3 as int, wx4));
                            assert(xcut_covered(logs@, problem.image, x1 as int, x2 as int, x3 as int, wx4));
                        }
                    }
                }
                x3 = x3 + 10;
            }
            proof {
                assert forall|wx2: int, wx3: int, wx4: int|
                    (#[trigger] xcut_coords_valid(x1 as int, wx2, wx3, wx4) && wx2 < x2 + 10) implies xcut_covered(
                    logs@,
                    problem.image,
                    x1 as int, wx2, wx3, wx4,
                ) by {
                    if wx2 < x2 {
                    } else {
                        assert(wx2 == x2);
                        assert(xcut_coords_valid(x1 as int, x2 as int, wx3, wx4));
                        assert(xcut_covered(logs@, problem.image, x1 as int, x2 as int, wx3, wx4));
                    }
                }
            }
            x2 = x2 + 10;
        }
        proof {
            assert forall|wx1: int, wx2: int, wx3: int, wx4: int|
                (#[trigger] xcut_coords_valid(wx1, wx2, wx3, wx4) && wx1 < x1 + 10) implies xcut_covered(
                logs@,
                problem.image,
                wx1, wx2, wx3, wx4,
            ) by {
                if wx1 < x1 {
                } else {
                    assert(wx1 == x1);
                    assert(xcut_coords_valid(x1 as int, wx2, wx3, wx4));
                    assert(xcut_covered(logs@, problem.image, x1 as int, wx2, wx3, wx4));
                }
            }
        }
        x1 = x1 + 10;
    }
    proof {
        assert forall|k: int| 0 <= k < logs@.len() implies replay_spec(
            initial_entries(400, 400),
            400,
            400,
            (#[trigger] logs@[k])@,
        ) is Some by {
            let (x1, x2, x3, x4) = choose|x1: int, x2: int, x3: int, x4: int|
                xcut_coords_valid(x1, x2, x3, x4) && xcut_log_shape((logs@[k])@, problem.image, x1, x2, x3, x4);
            lemma_xcut_log_replays((logs@[k])@, problem.image, x1, x2, x3, x4);
        }
        assert forall|wx1: int, wx2: int, wx3: int, wx4: int| #[trigger] xcut_coords_valid(wx1, wx2, wx3, wx4) implies xcut_covered(
            logs@,
            problem.image,
            wx1, wx2, wx3, wx4,
        ) by {
            assert(wx1 < x1);
        }
    }
    logs
}


/// The coordinates of a four-horizontal-cut candidate: step-aligned, in bounds.
pub open spec fn ycut_coords_valid(y1: int, y2: int, y3: int, y4: int) -> bool {
    &&& y1 % 10 == 0 && y2 % 10 == 0 && y3 % 10 == 0 && y4 % 10 == 0
    &&& 10 <= y1
    &&& y1 + 10 <= y2
    &&& y2 + 10 <= y3
    &&& y3 + 10 <= y4
    &&& y4 <= 390
}

/// The log of a four-horizontal-cut candidate.
pub open spec fn ycut_log_shape(log: Seq<Operation>, img: Raster, y1: int, y2: int, y3: int, y4: int) -> bool {
    &&& log.len() == 9
    &&& is_color_op(log[0], "0"@, spec_region_color(img, 0, 0, 400, y1))
    &&& is_ycut_op(log[1], "0"@, y1)
    &&& is_color_op(log[2], "0.1"@, spec_region_color(img, 0, y1, 400, y2))
    &&& is_ycut_op(log[3], "0.1"@, y2)
    &&& is_color_op(log[4], "0.1.1"@, spec_region_color(img, 0, y2, 400, y3))
    &&& is_ycut_op(log[5], "0.1.1"@, y3)
    &&& is_color_op(log[6], "0.1.1.1"@, spec_region_color(img, 0, y3, 400, y4))
    &&& is_ycut_op(log[7], "0.1.1.1"@, y4)
    &&& is_color_op(log[8], "0.1.1.1.1"@, spec_region_color(img, 0, y4, 400, 400))
}

/// Every emitted log of this engine matches the pattern for some valid
/// coordinates.
pub open spec fn ycut_logs_sound(logs: Seq<Log>, img: Raster) -> bool {
    forall|k: int|
        0 <= k < logs.len() ==> exists|y1: int, y2: int, y3: int, y4: int|
            ycut_coords_valid(y1, y2, y3, y4) && ycut_log_shape((#[trigger] logs[k])@, img, y1, y2, y3, y4)
}


/// The coordinates of a double-point-cut candidate: step-aligned, in bounds.
pub open spec fn rect_coords_valid(l: int, r: int, b: int, t: int) -> bool {
    &&& l % 16 == 0 && r % 16 == 0 && b % 16 == 0 && t % 16 == 0
    &&& 16 <= l
    &&& l + 16 <= r <= 384
    &&& 16 <= b
    &&& b + 16 <= t <= 384
}

/// The log of a double-point-cut candidate: a point cut, a second point cut of one quadrant, and a recolor of every resulting region.
pub open spec fn rect_log_shape(log: Seq<Operation>, img: Raster, l: int, r: int, b: int, t: int) -> bool {
    &&& log.len() == 9
    &&& is_color_op(log[0], "0"@, spec_region_color(img, 0, 0, l, b))
    &&& is_pcut_op(log[1], "0"@, l, b)
    &&& is_color_op(log[2], "0.2"@, spec_region_color(img, l, b, r, t))
    &&& is_pcut_op(log[3], "0.2"@, r, t)
    &&& is_color_op(log[4], "0.1"@, spec_region_color(img, l, 0, 400, b))
    &&& is_color_op(log[5], "0.2.1"@, spec_region_color(img, r, b, 400, t))
    &&& is_color_op(log[6], "0.2.2"@, spec_region_color(img, r, t, 400, 400))
    &&& is_color_op(log[7], "0.2.3"@, spec_region_color(img, l, t, r, 400))
    &&& is_color_op(log[8], "0.3"@, spec_region_color(img, 0, b, l, 400))
}

/// Every emitted log of this engine matches the pattern for some valid
/// coordinates.
pub open spec fn rect_logs_sound(logs: Seq<Log>, img: Raster) -> bool {
    forall|k: int|
        0 <= k < logs.len() ==> exists|l: int, r: int, b: int, t: int|
            rect_coords_valid(l, r, b, t) && rect_log_shape((#[trigger] logs[k])@, img, l, r, b, t)
}


/// The coordinates of a three-column, two-row grid candidate: step-aligned, in bounds.
pub open spec fn x3y2_coords_valid(x1: int, x2: int, y1: int, y2: int, y3: int) -> bool {
    &&& x1 % 40 == 0 && x2 % 40 == 0 && y1 % 40 == 0 && y2 % 40 == 0 && y3 % 40 == 0
    &&& 40 <= x1
    &&& x1 + 40 <= x2 <= 360
    &&& 40 <= y1 <= 360
    &&& 40 <= y2 <= 360
    &&& 40 <= y3 <= 360
}

/// The log of a three-column grid candidate with one horizontal cut per column.
pub open spec fn x3y2_log_shape(log: Seq<Operation>, img: Raster, x1: int, x2: int, y1: int, y2: int, y3: int) -> bool {
    &&& log.len() == 11
    &&& is_color_op(log[0], "0"@, spec_region_color(img, 0, 0, x1, y1))
    &&& is_xcut_op(log[1], "0"@, x1)
    &&& is_color_op(log[2], "0.1"@, spec_region_color(img, x1, 0, x2, y2))
    &&& is_xcut_op(log[3], "0.1"@, x2)
    &&& is_color_op(log[4], "0.1.1"@, spec_region_color(img, x2, 0, 400, y3))
    &&& is_ycut_op(log[5], "0.0"@, y1)
    &&& is_color_op(log[6], "0.0.1"@, spec_region_color(img, 0, y1, x1, 400))
    &&& is_ycut_op(log[7], "0.1.0"@, y2)
    &&& is_color_op(log[8], "0.1.0.1"@, spec_region_color(img, x1, y2, x2, 400))
    &&& is_ycut_op(log[9], "0.1.1"@, y3)
    &&& is_color_op(log[10], "0.1.1.1"@, spec_region_color(img, x2, y3, 400, 400))
}

/// Every emitted log of this engine matches the pattern for some valid
/// coordinates.
pub open spec fn x3y2_logs_sound(logs: Seq<Log>, img: Raster) -> bool {
    forall|k: int|
        0 <= k < logs.len() ==> exists|x1: int, x2: int, y1: int, y2: int, y3: int|
            x3y2_coords_valid(x1, x2, y1, y2, y3) && x3y2_log_shape((#[trigger] logs[k])@, img, x1, x2, y1, y2, y3)
}


/// The coordinates of a three-column, three-row grid candidate: step-aligned, in bounds.
pub open spec fn x3y3_coords_valid(x1: int, x2: int, y1: int, y2: int, y3: int, y4: int, y5: int, y6: int) -> bool {
    &&& x1 % 50 == 0 && x2 % 50 == 0 && y1 % 50 == 0 && y2 % 50 == 0
    &&& y3 % 50 == 0 && y4 % 50 == 0 && y5 % 50 == 0 && y6 % 50 == 0
    &&& 50 <= x1
    &&& x1 + 50 <= x2 <= 350
    &&& 50 <= y1
    &&& y1 + 50 <= y2 <= 350
    &&& 50 <= y3
    &&& y3 + 50 <= y4 <= 350
    &&& 50 <= y5
    &&& y5 + 50 <= y6 <= 350
}

/// The log of a three-by-three grid candidate; the colors sample the row bands of the first two cuts.
pub open spec fn x3y3_log_shape(log: Seq<Operation>, img: Raster, x1: int, x2: int, y1: int, y2: int, y3: int, y4: int, y5: int, y6: int) -> bool {
    &&& log.len() == 17
    &&& is_color_op(log[0], "0"@, spec_region_color(img, 0, 0, x1, y1))
    &&& is_xcut_op(log[1], "0"@, x1)
    &&& is_color_op(log[2], "0.1"@, spec_region_color(img, x1, 0, x2, y1))
    &&& is_xcut_op(log[3], "0.1"@, x2)
    &&& is_color_op(log[4], "0.1.1"@, spec_region_color(img, x2, 0, 400, y1))
    &&& is_ycut_op(log[5], "0.0"@, y1)
    &&& is_color_op(log[6], "0.0.1"@, spec_region_color(img, 0, y1, x1, y2))
    &&& is_ycut_op(log[7], "0.0.1"@, y2)
    &&& is_color_op(log[8], "0.0.1.1"@, spec_region_color(img, 0, y2, x1, 400))
    &&& is_ycut_op(log[9], "0.1.0"@, y3)
    &&& is_color_op(log[10], "0.1.0.1"@, spec_region_color(img, x1, y1, x2, y2))
    &&& is_ycut_op(log[11], "0.1.0.1"@, y4)
    &&& is_color_op(log[12], "0.1.0.1.1"@, spec_region_color(img, x1, y2, x2, 400))
    &&& is_ycut_op(log[13], "0.1.1"@, y5)
    &&& is_color_op(log[14], "0.1.1.1"@, spec_region_color(img, x2, y1, 400, y2))
    &&& is_ycut_op(log[15], "0.1.1.1"@, y6)
    &&& is_color_op(log[16], "0.1.1.1.1"@, spec_region_color(img, x2, y2, 400, 400))
}

/// Every emitted log of this engine matches the pattern for some valid
/// coordinates.
pub open spec fn x3y3_logs_sound(logs: Seq<Log>, img: Raster) -> bool {
    forall|k: int|
        0 <= k < logs.len() ==> exists|x1: int, x2: int, y1: int, y2: int, y3: int, y4: int, y5: int, y6: int|
            x3y3_coords_valid(x1, x2, y1, y2, y3, y4, y5, y6) && x3y3_log_shape((#[trigger] logs[k])@, img, x1, x2, y1, y2, y3, y4, y5, y6)
}


/// Enumerate four sequential horizontal cuts of a 400 by 400 canvas on a step
/// of ten, recoloring each band to its representative color.
pub fn algo_ycut(problem: &Problem) -> (logs: Vec<Log>)
    requires
        problem.image.wf(),
        problem.image.width == 400,
        problem.image.height == 400,
    ensures
        ycut_logs_sound(logs@, problem.image),
        forall|k: int|
            0 <= k < logs@.len() ==> replay_spec(
                initial_entries(400, 400),
                400,
                400,
                (#[trigger] logs@[k])@,
            ) is Some,
        forall|wy1: int, wy2: int, wy3: int, wy4: int|
            #[trigger] ycut_coords_valid(wy1, wy2, wy3, wy4) ==> ycut_covered(
                logs@,
                problem.image,
                wy1, wy2, wy3, wy4,
            ),
{
    let mut logs: Vec<Log> = Vec::new();
    let mut y1: i32 = 10;
    while y1 < 370
        invariant
            problem.image.wf(),
            problem.image.width == 400,
            problem.image.height == 400,
            10 <= y1,
            y1 % 10 == 0,
            ycut_logs_sound(logs@, problem.image),
            forall|wy1: int, wy2: int, wy3: int, wy4: int|
                (#[trigger] ycut_coords_valid(wy1, wy2, wy3, wy4) && wy1 < y1)
                    ==> ycut_covered(logs@, problem.image, wy1, wy2, wy3, wy4),
        decreases 370 - y1,
    {
        let mut y2: i32 = y1 + 10;
        while y2 < 380
            invariant
                problem.image.wf(),
                problem.image.width == 400,
                problem.image.height == 400,
                10 <= y1 < 370,
                y1 % 10 == 0,
                y1 + 10 <= y2,
                y2 % 10 == 0,
                ycut_logs_sound(logs@, problem.image),
                forall|wy1: int, wy2: int, wy3: int, wy4: int|
                    (#[trigger] ycut_coords_valid(wy1, wy2, wy3, wy4) && wy1 < y1)
                        ==> ycut_covered(logs@, problem.image, wy1, wy2, wy3, wy4),
                forall|wy2: int, wy3: int, wy4: int|
                    (#[trigger] ycut_coords_valid(y1 as int, wy2, wy3, wy4) && wy2 < y2)
                        ==> ycut_covered(logs@, problem.image, y1 as int, wy2, wy3, wy4),
            decreases 380 - y2,
        {
            let mut y3: i32 = y2 + 10;
            while y3 < 390
                invariant
                    problem.image.wf(),
                    problem.image.width == 400,
                    problem.image.height == 400,
                    10 <= y1 < 370,
                    y1 % 10 == 0,
                    y1 + 10 <= y2 < 380,
                    y2 % 10 == 0,
                    y2 + 10 <= y3,
                    y3 % 10 == 0,
                    ycut_logs_sound(logs@, problem.image),
                    forall|wy1: int, wy2: int, wy3: int, wy4: int|
                        (#[trigger] ycut_coords_valid(wy1, wy2, wy3, wy4) && wy1 < y1)
                            ==> ycut_covered(logs@, problem.image, wy1, wy2, wy3, wy4),
                    forall|wy2: int, wy3: int, wy4: int|
                        (#[trigger] ycut_coords_valid(y1 as int, wy2, wy3, wy4) && wy2 < y2)
                            ==> ycut_covered(logs@, problem.image, y1 as int, wy2, wy3, wy4),
                    forall|wy3: int, wy4: int|
                        (#[trigger] ycut_coords_valid(y1 as int, y2 as int, wy3, wy4) && wy3 < y3)
                            ==> ycut_covered(logs@, problem.image, y1 as int, y2 as int, wy3, wy4),
                decreases 390 - y3,
            {
                let mut y4: i32 = y3 + 10;
                while y4 < 400
                    invariant
                        problem.image.wf(),
                        problem.image.width == 400,
                        problem.image.height == 400,
                        10 <= y1 < 370,
                        y1 % 10 == 0,
                        y1 + 10 <= y2 < 380,
                        y2 % 10 == 0,
                        y2 + 10 <= y3 < 390,
                        y3 % 10 == 0,
                        y3 + 10 <= y4,
                        y4 % 10 == 0,
                        ycut_logs_sound(logs@, problem.image),
                        forall|wy1: int, wy2: int, wy3: int, wy4: int|
                            (#[trigger] ycut_coords_valid(wy1, wy2, wy3, wy4) && wy1 < y1)
                                ==> ycut_covered(logs@, problem.image, wy1, wy2, wy3, wy4),
                        forall|wy2: int, wy3: int, wy4: int|
                            (#[trigger] ycut_coords_valid(y1 as int, wy2, wy3, wy4) && wy2 < y2)
                                ==> ycut_covered(logs@, problem.image, y1 as int, wy2, wy3, wy4),
                        forall|wy3: int, wy4: int|
                            (#[trigger] ycut_coords_valid(y1 as int, y2 as int, wy3, wy4) && wy3 < y3)
                                ==> ycut_covered(logs@, problem.image, y1 as int, y2 as int, wy3, wy4),
                        forall|wy4: int|
                            (#[trigger] ycut_coords_valid(y1 as int, y2 as int, y3 as int, wy4) && wy4 < y4)
                                ==> ycut_covered(logs@, problem.image, y1 as int, y2 as int, y3 as int, wy4),
                    decreases 400 - y4,
                {
                    let c1 = problem.color(0, 0, 400, y1);
                    let c2 = problem.color(0, y1, 400, y2);
                    let c3 = problem.color(0, y2, 400, y3);
                    let c4 = problem.color(0, y3, 400, y4);
                    let c5 = problem.color(0, y4, 400, 400);
                    let mut log: Log = Vec::new();
                    log.push(color_op("0", c1));
                    log.push(ycut_op("0", y1));
                    log.push(color_op("0.1", c2));
                    log.push(ycut_op("0.1", y2));
                    log.push(color_op("0.1.1", c3));
                    log.push(ycut_op("0.1.1", y3));
                    log.push(color_op("0.1.1.1", c4));
                    log.push(ycut_op("0.1.1.1", y4));
                    log.push(color_op("0.1.1.1.1", c5));
                    proof {
                        assert(ycut_coords_valid(y1 as int, y2 as int, y3 as int, y4 as int));
                        assert(ycut_log_shape(log@, problem.image, y1 as int, y2 as int, y3 as int, y4 as int));
                    }
                    let ghost pre = logs@;
                    let ghost nl = log;
                    logs.push(log);
                    proof {
                        lemma_ycut_covered_push(pre, nl, problem.image);
                        assert(logs@[logs@.len() - 1] == nl);
                        assert(ycut_covered(logs@, problem.image, y1 as int, y2 as int, y3 as int, y4 as int));
                    }
                    proof {
                        assert forall|wy4: int|
                            (#[trigger] ycut_coords_valid(y1 as int, y2 as int, y3 as int, wy4) && wy4 < y4 + 10) implies ycut_covered(
                            logs@,
                            problem.image,
                            y1 as int, y2 as int, y3 as int, wy4,
                        ) by {
                            if wy4 < y4 {
                            } else {
                                assert(wy4 == y4);
                                assert(ycut_covered(logs@, problem.image, y1 as int, y2 as int, y3 as int, wy4));
                            }
                        }
                    }
                    y4 = y4 + 10;
                }
                proof {
                    assert forall|wy3: int, wy4: int|
                        (#[trigger] ycut_coords_valid(y1 as int, y2 as int, wy3, wy4) && wy3 < y3 + 10) implies ycut_covered(
                        logs@,
                        problem.image,
                        y1 as int, y2 as int, wy3, wy4,
                    ) by {
                        if wy3 < y3 {
                        } else {
                            assert(wy3 == y3);
                            assert(ycut_coords_valid(y1 as int, y2 as int, y3 as int, wy4));
                            assert(ycut_covered(logs@, problem.image, y1 as int, y2 as int, y3 as int, wy4));
                        }
                    }
                }
                y3 = y3 + 10;
            }
            proof {
                assert forall|wy2: int, wy3: int, wy4: int|
                    (#[trigger] ycut_coords_valid(y1 as int, wy2, wy3, wy4) && wy2 < y2 + 10) implies ycut_covered(
                    logs@,
                    problem.image,
                    y1 as int, wy2, wy3, wy4,
                ) by {
                    if wy2 < y2 {
                    } else {
                        assert(wy2 == y2);
                        assert(ycut_coords_valid(y1 as int, y2 as int, wy3, wy4));
                        assert(ycut_covered(logs@, problem.image, y1 as int, y2 as int, wy3, wy4));
                    }
                }
            }
            y2 = y2 + 10;
        }
        proof {
            assert forall|wy1: int, wy2: int, wy3: int, wy4: int|
                (#[trigger] ycut_coords_valid(wy1, wy2, wy3, wy4) && wy1 < y1 + 10) implies ycut_covered(
                logs@,
                problem.image,
                wy1, wy2, wy3, wy4,
            ) by {
                if wy1 < y1 {
                } else {
                    assert(wy1 == y1);
                    assert(ycut_coords_valid(y1 as int, wy2, wy3, wy4));
                    assert(ycut_covered(logs@, problem.image, y1 as int, wy2, wy3, wy4));
                }
            }
        }
        y1 = y1 + 10;
    }
    proof {
        assert forall|k: int| 0 <= k < logs@.len() implies replay_spec(
            initial_entries(400, 400),
            400,
            400,
            (#[trigger] logs@[k])@,
        ) is Some by {
            let (y1, y2, y3, y4) = choose|y1: int, y2: int, y3: int, y4: int|
                ycut_coords_valid(y1, y2, y3, y4) && ycut_log_shape((logs@[k])@, problem.image, y1, y2, y3, y4);
            lemma_ycut_log_replays((logs@[k])@, problem.image, y1, y2, y3, y4);
        }
        assert forall|wy1: int, wy2: int, wy3: int, wy4: int| #[trigger] ycut_coords_valid(wy1, wy2, wy3, wy4) implies ycut_covered(
            logs@,
            problem.image,
            wy1, wy2, wy3, wy4,
        ) by {
            assert(wy1 < y1);
        }
    }
    logs
}

/// Enumerate a point cut followed by a point cut of the middle quadrant on a
/// step of sixteen, recoloring all seven regions.
pub fn algo_rect(problem: &Problem) -> (logs: Vec<Log>)
    requires
        problem.image.wf(),
        problem.image.width == 400,
        problem.image.height == 400,
    ensures
        rect_logs_sound(logs@, problem.image),
        forall|k: int|
            0 <= k < logs@.len() ==> replay_spec(
                initial_entries(400, 400),
                400,
                400,
                (#[trigger] logs@[k])@,
            ) is Some,
        forall|wl: int, wr: int, wb: int, wt: int|
            #[trigger] rect_coords_valid(wl, wr, wb, wt) ==> rect_covered(
                logs@,
                problem.image,
                wl, wr, wb, wt,
            ),
{
    let mut logs: Vec<Log> = Vec::new();
    let mut l: i32 = 16;
    while l < 384
        invariant
            problem.image.wf(),
            problem.image.width == 400,
            problem.image.height == 400,
            16 <= l,
            l % 16 == 0,
            rect_logs_sound(logs@, problem.image),
            forall|wl: int, wr: int, wb: int, wt: int|
                (#[trigger] rect_coords_valid(wl, wr, wb, wt) && wl < l)
                    ==> rect_covered(logs@, problem.image, wl, wr, wb, wt),
        decreases 384 - l,
    {
        let mut r: i32 = l + 16;
        while r < 400
            invariant
                problem.image.wf(),
                problem.image.width == 400,
                problem.image.height == 400,
                16 <= l < 384,
                l % 16 == 0,
                l + 16 <= r,
                r % 16 == 0,
                rect_logs_sound(logs@, problem.image),
                forall|wl: int, wr: int, wb: int, wt: int|
                    (#[trigger] rect_coords_valid(wl, wr, wb, wt) && wl < l)
                        ==> rect_covered(logs@, problem.image, wl, wr, wb, wt),
                forall|wr: int, wb: int, wt: int|
                    (#[trigger] rect_coords_valid(l as int, wr, wb, wt) && wr < r)
                        ==> rect_covered(logs@, problem.image, l as int, wr, wb, wt),
            decreases 400 - r,
        {
            let mut b: i32 = 16;
            while b < 384
                invariant
                    problem.image.wf(),
                    problem.image.width == 400,
                    problem.image.height == 400,
                    16 <= l < 384,
                    l % 16 == 0,
                    l + 16 <= r < 400,
                    r % 16 == 0,
                    16 <= b,
                    b % 16 == 0,
                    rect_logs_sound(logs@, problem.image),
                    forall|wl: int, wr: int, wb: int, wt: int|
                        (#[trigger] rect_coords_valid(wl, wr, wb, wt) && wl < l)
                            ==> rect_covered(logs@, problem.image, wl, wr, wb, wt),
                    forall|wr: int, wb: int, wt: int|
                        (#[trigger] rect_coords_valid(l as int, wr, wb, wt) && wr < r)
                            ==> rect_covered(logs@, problem.image, l as int, wr, wb, wt),
                    forall|wb: int, wt: int|
                        (#[trigger] rect_coords_valid(l as int, r as int, wb, wt) && wb < b)
                            ==> rect_covered(logs@, problem.image, l as int, r as int, wb, wt),
                decreases 384 - b,
            {
                let mut t: i32 = b + 16;
                while t < 400
                    invariant
                        problem.image.wf(),
                        problem.image.width == 400,
                        problem.image.height == 400,
                        16 <= l < 384,
                        l % 16 == 0,
                        l + 16 <= r < 400,
                        r % 16 == 0,
                        16 <= b < 384,
                        b % 16 == 0,
                        b + 16 <= t,
                        t % 16 == 0,
                        rect_logs_sound(logs@, problem.image),
                        forall|wl: int, wr: int, wb: int, wt: int|
                            (#[trigger] rect_coords_valid(wl, wr, wb, wt) && wl < l)
                                ==> rect_covered(logs@, problem.image, wl, wr, wb, wt),
                        forall|wr: int, wb: int, wt: int|
                            (#[trigger] rect_coords_valid(l as int, wr, wb, wt) && wr < r)
                                ==> rect_covered(logs@, problem.image, l as int, wr, wb, wt),
                        forall|wb: int, wt: int|
                            (#[trigger] rect_coords_valid(l as int, r as int, wb, wt) && wb < b)
                                ==> rect_covered(logs@, problem.image, l as int, r as int, wb, wt),
                        forall|wt: int|
                            (#[trigger] rect_coords_valid(l as int, r as int, b as int, wt) && wt < t)
                                ==> rect_covered(logs@, problem.image, l as int, r as int, b as int, wt),
                    decreases 400 - t,
                {
                    let c00 = problem.color(0, 0, l, b);
                    let c01 = problem.color(l, 0, 400, b);
                    let c020 = problem.color(l, b, r, t);
                    let c021 = problem.color(r, b, 400, t);
                    let c022 = problem.color(r, t, 400, 400);
                    let c023 = problem.color(l, t, r, 400);
                    let c03 = problem.color(0, b, l, 400);
                    let mut log: Log = Vec::new();
                    log.push(color_op("0", c00));
                    log.push(pcut_op("0", l, b));
                    log.push(color_op("0.2", c020));
                    log.push(pcut_op("0.2", r, t));
                    log.push(color_op("0.1", c01));
                    log.push(color_op("0.2.1", c021));
                    log.push(color_op("0.2.2", c022));
                    log.push(color_op("0.2.3", c023));
                    log.push(color_op("0.3", c03));
                    proof {
                        assert(rect_coords_valid(l as int, r as int, b as int, t as int));
                        assert(rect_log_shape(log@, problem.image, l as int, r as int, b as int, t as int));
                    }
                    let ghost pre = logs@;
                    let ghost nl = log;
                    logs.push(log);
                    proof {
                        lemma_rect_covered_push(pre, nl, problem.image);
                        assert(logs@[logs@.len() - 1] == nl);
                        assert(rect_covered(logs@, problem.image, l as int, r as int, b as int, t as int));
                    }
                    proof {
                        assert forall|wt: int|
                            (#[trigger] rect_coords_valid(l as int, r as int, b as int, wt) && wt < t + 16) implies rect_covered(
                            logs@,
                            problem.image,
                            l as int, r as int, b as int, wt,
                        ) by {
                            if wt < t {
                            } else {
                                assert(wt == t);
                                assert(rect_covered(logs@, problem.image, l as int, r as int, b as int, wt));
                            }
                        }
                    }
                    t = t + 16;
                }
                proof {
                    assert forall|wb: int, wt: int|
                        (#[trigger] rect_coords_valid(l as int, r as int, wb, wt) && wb < b + 16) implies rect_covered(
                        logs@,
                        problem.image,
                        l as int, r as int, wb, wt,
                    ) by {
                        if wb < b {
                        } else {
                            assert(wb == b);
                            assert(rect_coords_valid(l as int, r as int, b as int, wt));
                            assert(rect_covered(logs@, problem.image, l as int, r as int, b as int, wt));
                        }
                    }
                }
                b = b + 16;
            }
            proof {
                assert forall|wr: int, wb: int, wt: int|
                    (#[trigger] rect_coords_valid(l as int, wr, wb, wt) && wr < r + 16) implies rect_covered(
                    logs@,
                    problem.image,
                    l as int, wr, wb, wt,
                ) by {
                    if wr < r {
                    } else {
                        assert(wr == r);
                        assert(rect_coords_valid(l as int, r as int, wb, wt));
                        assert(rect_covered(logs@, problem.image, l as int, r as int, wb, wt));
                    }
                }
            }
            r = r + 16;
        }
        proof {
            assert forall|wl: int, wr: int, wb: int, wt: int|
                (#[trigger] rect_coords_valid(wl, wr, wb, wt) && wl < l + 16) implies rect_covered(
                logs@,
                problem.image,
                wl, wr, wb, wt,
            ) by {
                if wl < l {
                } else {
                    assert(wl == l);
                    assert(rect_coords_valid(l as int, wr, wb, wt));
                    assert(rect_covered(logs@, problem.image, l as int, wr, wb, wt));
                }
            }
        }
        l = l + 16;
    }
    proof {
        assert forall|k: int| 0 <= k < logs@.len() implies replay_spec(
            initial_entries(400, 400),
            400,
            400,
            (#[trigger] logs@[k])@,
        ) is Some by {
            let (l, r, b, t) = choose|l: int, r: int, b: int, t: int|
                rect_coords_valid(l, r, b, t) && rect_log_shape((logs@[k])@, problem.image, l, r, b, t);
            lemma_rect_log_replays((logs@[k])@, problem.image, l, r, b, t);
        }
        assert forall|wl: int, wr: int, wb: int, wt: int| #[trigger] rect_coords_valid(wl, wr, wb, wt) implies rect_covered(
            logs@,
            problem.image,
            wl, wr, wb, wt,
        ) by {
            assert(wl < l);
        }
    }
    logs
}

/// Enumerate a three-column partition with one horizontal cut per column on a
/// step of forty, recoloring all six regions.
pub fn algo_x3y2(problem: &Problem) -> (logs: Vec<Log>)
    requires
        problem.image.wf(),
        problem.image.width == 400,
        problem.image.height == 400,
    ensures
        x3y2_logs_sound(logs@, problem.image),
        forall|k: int|
            0 <= k < logs@.len() ==> replay_spec(
                initial_entries(400, 400),
                400,
                400,
                (#[trigger] logs@[k])@,
            ) is Some,
        forall|wx1: int, wx2: int, wy1: int, wy2: int, wy3: int|
            #[trigger] x3y2_coords_valid(wx1, wx2, wy1, wy2, wy3) ==> x3y2_covered(
                logs@,
                problem.image,
                wx1, wx2, wy1, wy2, wy3,
            ),
{
    let mut logs: Vec<Log> = Vec::new();
    let mut x1: i32 = 40;
    while x1 < 360
        invariant
            problem.image.wf(),
            problem.image.width == 400,
            problem.image.height == 400,
            40 <= x1,
            x1 % 40 == 0,
            x3y2_logs_sound(logs@, problem.image),
            forall|wx1: int, wx2: int, wy1: int, wy2: int, wy3: int|
                (#[trigger] x3y2_coords_valid(wx1, wx2, wy1, wy2, wy3) && wx1 < x1)
                    ==> x3y2_covered(logs@, problem.image, wx1, wx2, wy1, wy2, wy3),
        decreases 360 - x1,
    {
        let mut x2: i32 = x1 + 40;
        while x2 < 400
            invariant
                problem.image.wf(),
                problem.image.width == 400,
                problem.image.height == 400,
                40 <= x1 < 360,
                x1 % 40 == 0,
                x1 + 40 <= x2,
                x2 % 40 == 0,
                x3y2_logs_sound(logs@, problem.image),
                forall|wx1: int, wx2: int, wy1: int, wy2: int, wy3: int|
                    (#[trigger] x3y2_coords_valid(wx1, wx2, wy1, wy2, wy3) && wx1 < x1)
                        ==> x3y2_covered(logs@, problem.image, wx1, wx2, wy1, wy2, wy3),
                forall|wx2: int, wy1: int, wy2: int, wy3: int|
                    (#[trigger] x3y2_coords_valid(x1 as int, wx2, wy1, wy2, wy3) && wx2 < x2)
                        ==> x3y2_covered(logs@, problem.image, x1 as int, wx2, wy1, wy2, wy3),
            decreases 400 - x2,
        {
            let mut y1: i32 = 40;
            while y1 < 400
                invariant
                    problem.image.wf(),
                    problem.image.width == 400,
                    problem.image.height == 400,
                    40 <= x1 < 360,
                    x1 % 40 == 0,
                    x1 + 40 <= x2 < 400,
                    x2 % 40 == 0,
                    40 <= y1,
                    y1 % 40 == 0,
                    x3y2_logs_sound(logs@, problem.image),
                    forall|wx1: int, wx2: int, wy1: int, wy2: int, wy3: int|
                        (#[trigger] x3y2_coords_valid(wx1, wx2, wy1, wy2, wy3) && wx1 < x1)
                            ==> x3y2_covered(logs@, problem.image, wx1, wx2, wy1, wy2, wy3),
                    forall|wx2: int, wy1: int, wy2: int, wy3: int|
                        (#[trigger] x3y2_coords_valid(x1 as int, wx2, wy1, wy2, wy3) && wx2 < x2)
                            ==> x3y2_covered(logs@, problem.image, x1 as int, wx2, wy1, wy2, wy3),
                    forall|wy1: int, wy2: int, wy3: int|
                        (#[trigger] x3y2_coords_valid(x1 as int, x2 as int, wy1, wy2, wy3) && wy1 < y1)
                            ==> x3y2_covered(logs@, problem.image, x1 as int, x2 as int, wy1, wy2, wy3),
                decreases 400 - y1,
            {
                let mut y2: i32 = 40;
                while y2 < 400
                    invariant
                        problem.image.wf(),
                        problem.image.width == 400,
                        problem.image.height == 400,
                        40 <= x1 < 360,
                        x1 % 40 == 0,
                        x1 + 40 <= x2 < 400,
                        x2 % 40 == 0,
                        40 <= y1 < 400,
                        y1 % 40 == 0,
                        40 <= y2,
                        y2 % 40 == 0,
                        x3y2_logs_sound(logs@, problem.image),
                        forall|wx1: int, wx2: int, wy1: int, wy2: int, wy3: int|
                            (#[trigger] x3y2_coords_valid(wx1, wx2, wy1, wy2, wy3) && wx1 < x1)
                                ==> x3y2_covered(logs@, problem.image, wx1, wx2, wy1, wy2, wy3),
                        forall|wx2: int, wy1: int, wy2: int, wy3: int|
                            (#[trigger] x3y2_coords_valid(x1 as int, wx2, wy1, wy2, wy3) && wx2 < x2)
                                ==> x3y2_covered(logs@, problem.image, x1 as int, wx2, wy1, wy2, wy3),
                        forall|wy1: int, wy2: int, wy3: int|
                            (#[trigger] x3y2_coords_valid(x1 as int, x2 as int, wy1, wy2, wy3) && wy1 < y1)
                                ==> x3y2_covered(logs@, problem.image, x1 as int, x2 as int, wy1, wy2, wy3),
                        forall|wy2: int, wy3: int|
                            (#[trigger] x3y2_coords_valid(x1 as int, x2 as int, y1 as int, wy2, wy3) && wy2 < y2)
                                ==> x3y2_covered(logs@, problem.image, x1 as int, x2 as int, y1 as int, wy2, wy3),
                    decreases 400 - y2,
                {
                    let mut y3: i32 = 40;
                    while y3 < 400
                        invariant
                            problem.image.wf(),
                            problem.image.width == 400,
                            problem.image.height == 400,
                            40 <= x1 < 360,
                            x1 % 40 == 0,
                            x1 + 40 <= x2 < 400,
                            x2 % 40 == 0,
                            40 <= y1 < 400,
                            y1 % 40 == 0,
                            40 <= y2 < 400,
                            y2 % 40 == 0,
                            40 <= y3,
                            y3 % 40 == 0,
                            x3y2_logs_sound(logs@, problem.image),
                            forall|wx1: int, wx2: int, wy1: int, wy2: int, wy3: int|
                                (#[trigger] x3y2_coords_valid(wx1, wx2, wy1, wy2, wy3) && wx1 < x1)
                                    ==> x3y2_covered(logs@, problem.image, wx1, wx2, wy1, wy2, wy3),
                            forall|wx2: int, wy1: int, wy2: int, wy3: int|
                                (#[trigger] x3y2_coords_valid(x1 as int, wx2, wy1, wy2, wy3) && wx2 < x2)
                                    ==> x3y2_covered(logs@, problem.image, x1 as int, wx2, wy1, wy2, wy3),
                            forall|wy1: int, wy2: int, wy3: int|
                                (#[trigger] x3y2_coords_valid(x1 as int, x2 as int, wy1, wy2, wy3) && wy1 < y1)
                                    ==> x3y2_covered(logs@, problem.image, x1 as int, x2 as int, wy1, wy2, wy3),
                            forall|wy2: int, wy3: int|
                                (#[trigger] x3y2_coords_valid(x1 as int, x2 as int, y1 as int, wy2, wy3) && wy2 < y2)
                                    ==> x3y2_covered(logs@, problem.image, x1 as int, x2 as int, y1 as int, wy2, wy3),
                            forall|wy3: int|
                                (#[trigger] x3y2_coords_valid(x1 as int, x2 as int, y1 as int, y2 as int, wy3) && wy3 < y3)
                                    ==> x3y2_covered(logs@, problem.image, x1 as int, x2 as int, y1 as int, y2 as int, wy3),
                        decreases 400 - y3,
                    {
                        let c000 = problem.color(0, 0, x1, y1);
                        let c001 = problem.color(0, y1, x1, 400);
                        let c0100 = problem.color(x1, 0, x2, y2);
                        let c0101 = problem.color(x1, y2, x2, 400);
                        let c0110 = problem.color(x2, 0, 400, y3);
                        let c0111 = problem.color(x2, y3, 400, 400);
                        let mut log: Log = Vec::new();
                        log.push(color_op("0", c000));
                        log.push(xcut_op("0", x1));
                        log.push(color_op("0.1", c0100));
                        log.push(xcut_op("0.1", x2));
                        log.push(color_op("0.1.1", c0110));
                        log.push(ycut_op("0.0", y1));
                        log.push(color_op("0.0.1", c001));
                        log.push(ycut_op("0.1.0", y2));
                        log.push(color_op("0.1.0.1", c0101));
                        log.push(ycut_op("0.1.1", y3));
                        log.push(color_op("0.1.1.1", c0111));
                        proof {
                            assert(x3y2_coords_valid(x1 as int, x2 as int, y1 as int, y2 as int, y3 as int));
                            assert(x3y2_log_shape(log@, problem.image, x1 as int, x2 as int, y1 as int, y2 as int, y3 as int));
                        }
                        let ghost pre = logs@;
                        let ghost nl = log;
                        logs.push(log);
                        proof {
                            lemma_x3y2_covered_push(pre, nl, problem.image);
                            assert(logs@[logs@.len() - 1] == nl);
                            assert(x3y2_covered(logs@, problem.image, x1 as int, x2 as int, y1 as int, y2 as int, y3 as int));
                        }
                        proof {
                            assert forall|wy3: int|
                                (#[trigger] x3y2_coords_valid(x1 as int, x2 as int, y1 as int, y2 as int, wy3) && wy3 < y3 + 40) implies x3y2_covered(
                                logs@,
                                problem.image,
                                x1 as int, x2 as int, y1 as int, y2 as int, wy3,
                            ) by {
                                if wy3 < y3 {
                                } else {
                                    assert(wy3 == y3);
                                    assert(x3y2_covered(logs@, problem.image, x1 as int, x2 as int, y1 as int, y2 as int, wy3));
                                }
                            }
                        }
                        y3 = y3 + 40;
                    }
                    proof {
                        assert forall|wy2: int, wy3: int|
                            (#[trigger] x3y2_coords_valid(x1 as int, x2 as int, y1 as int, wy2, wy3) && wy2 < y2 + 40) implies x3y2_covered(
                            logs@,
                            problem.image,
                            x1 as int, x2 as int, y1 as int, wy2, wy3,
                        ) by {
                            if wy2 < y2 {
                            } else {
                                assert(wy2 == y2);
                                assert(x3y2_coords_valid(x1 as int, x2 as int, y1 as int, y2 as int, wy3));
                                assert(x3y2_covered(logs@, problem.image, x1 as int, x2 as int, y1 as int, y2 as int, wy3));
                            }
                        }
                    }
                    y2 = y2 + 40;
                }
                proof {
                    assert forall|wy1: int, wy2: int, wy3: int|
                        (#[trigger] x3y2_coords_valid(x1 as int, x2 as int, wy1, wy2, wy3) && wy1 < y1 + 40) implies x3y2_covered(
                        logs@,
                        problem.image,
                        x1 as int, x2 as int, wy1, wy2, wy3,
                    ) by {
                        if wy1 < y1 {
                        } else {
                            assert(wy1 == y1);
                            assert(x3y2_coords_valid(x1 as int, x2 as int, y1 as int, wy2, wy3));
                            assert(x3y2_covered(logs@, problem.image, x1 as int, x2 as int, y1 as int, wy2, wy3));
                        }
                    }
                }
                y1 = y1 + 40;
            }
            proof {
                assert forall|wx2: int, wy1: int, wy2: int, wy3: int|
                    (#[trigger] x3y2_coords_valid(x1 as int, wx2, wy1, wy2, wy3) && wx2 < x2 + 40) implies x3y2_covered(
                    logs@,
                    problem.image,
                    x1 as int, wx2, wy1, wy2, wy3,
                ) by {
                    if wx2 < x2 {
                    } else {
                        assert(wx2 == x2);
                        assert(x3y2_coords_valid(x1 as int, x2 as int, wy1, wy2, wy3));
                        assert(x3y2_covered(logs@, problem.image, x1 as int, x2 as int, wy1, wy2, wy3));
                    }
                }
            }
            x2 = x2 + 40;
        }
        proof {
            assert forall|wx1: int, wx2: int, wy1: int, wy2: int, wy3: int|
                (#[trigger] x3y2_coords_valid(wx1, wx2, wy1, wy2, wy3) && wx1 < x1 + 40) implies x3y2_covered(
                logs@,
                problem.image,
                wx1, wx2, wy1, wy2, wy3,
            ) by {
                if wx1 < x1 {
                } else {
                    assert(wx1 == x1);
                    assert(x3y2_coords_valid(x1 as int, wx2, wy1, wy2, wy3));
                    assert(x3y2_covered(logs@, problem.image, x1 as int, wx2, wy1, wy2, wy3));
                }
            }
        }
        x1 = x1 + 40;
    }
    proof {
        assert forall|k: int| 0 <= k < logs@.len() implies replay_spec(
            initial_entries(400, 400),
            400,
            400,
            (#[trigger] logs@[k])@,
        ) is Some by {
            let (x1, x2, y1, y2, y3) = choose|x1: int, x2: int, y1: int, y2: int, y3: int|
                x3y2_coords_valid(x1, x2, y1, y2, y3) && x3y2_log_shape((logs@[k])@, problem.image, x1, x2, y1, y2, y3);
            lemma_x3y2_log_replays((logs@[k])@, problem.image, x1, x2, y1, y2, y3);
        }
        assert forall|wx1: int, wx2: int, wy1: int, wy2: int, wy3: int| #[trigger] x3y2_coords_valid(wx1, wx2, wy1, wy2, wy3) implies x3y2_covered(
            logs@,
            problem.image,
            wx1, wx2, wy1, wy2, wy3,
        ) by {
            assert(wx1 < x1);
        }
    }
    logs
}

/// Enumerate a three-by-three grid partition on a step of fifty, recoloring
/// all nine regions; the densest engine.
pub fn algo_x3y3(problem: &Problem) -> (logs: Vec<Log>)
    requires
        problem.image.wf(),
        problem.image.width == 400,
        problem.image.height == 400,
    ensures
        x3y3_logs_sound(logs@, problem.image),
        forall|k: int|
            0 <= k < logs@.len() ==> replay_spec(
                initial_entries(400, 400),
                400,
                400,
                (#[trigger] logs@[k])@,
            ) is Some,
        forall|wx1: int, wx2: int, wy1: int, wy2: int, wy3: int, wy4: int, wy5: int, wy6: int|
            #[trigger] x3y3_coords_valid(wx1, wx2, wy1, wy2, wy3, wy4, wy5, wy6) ==> x3y3_covered(
                logs@,
                problem.image,
                wx1, wx2, wy1, wy2, wy3, wy4, wy5, wy6,
            ),
{
    let mut logs: Vec<Log> = Vec::new();
    let mut x1: i32 = 50;
    while x1 < 350
        invariant
            problem.image.wf(),
            problem.image.width == 400,
            problem.image.height == 400,
            50 <= x1,
            x1 % 50 == 0,
            x3y3_logs_sound(logs@, problem.image),
            forall|wx1: int, wx2: int, wy1: int, wy2: int, wy3: int, wy4: int, wy5: int, wy6: int|
                (#[trigger] x3y3_coords_valid(wx1, wx2, wy1, wy2, wy3, wy4, wy5, wy6) && wx1 < x1)
                    ==> x3y3_covered(logs@, problem.image, wx1, wx2, wy1, wy2, wy3, wy4, wy5, wy6),
        decreases 350 - x1,
    {
        let mut x2: i32 = x1 + 50;
        while x2 < 400
            invariant
                problem.image.wf(),
                problem.image.width == 400,
                problem.image.height == 400,
                50 <= x1 < 350,
                x1 % 50 == 0,
                x1 + 50 <= x2,
                x2 % 50 == 0,
                x3y3_logs_sound(logs@, problem.image),
                forall|wx1: int, wx2: int, wy1: int, wy2: int, wy3: int, wy4: int, wy5: int, wy6: int|
                    (#[trigger] x3y3_coords_valid(wx1, wx2, wy1, wy2, wy3, wy4, wy5, wy6) && wx1 < x1)
                        ==> x3y3_covered(logs@, problem.image, wx1, wx2, wy1, wy2, wy3, wy4, wy5, wy6),
                forall|wx2: int, wy1: int, wy2: int, wy3: int, wy4: int, wy5: int, wy6: int|
                    (#[trigger] x3y3_coords_valid(x1 as int, wx2, wy1, wy2, wy3, wy4, wy5, wy6) && wx2 < x2)
                        ==> x3y3_covered(logs@, problem.image, x1 as int, wx2, wy1, wy2, wy3, wy4, wy5, wy6),
            decreases 400 - x2,
        {
            let mut y1: i32 = 50;
            while y1 < 350
                invariant
                    problem.image.wf(),
                    problem.image.width == 400,
                    problem.image.height == 400,
                    50 <= x1 < 350,
                    x1 % 50 == 0,
                    x1 + 50 <= x2 < 400,
                    x2 % 50 == 0,
                    50 <= y1,
                    y1 % 50 == 0,
                    x3y3_logs_sound(logs@, problem.image),
                    forall|wx1: int, wx2: int, wy1: int, wy2: int, wy3: int, wy4: int, wy5: int, wy6: int|
                        (#[trigger] x3y3_coords_valid(wx1, wx2, wy1, wy2, wy3, wy4, wy5, wy6) && wx1 < x1)
                            ==> x3y3_covered(logs@, problem.image, wx1, wx2, wy1, wy2, wy3, wy4, wy5, wy6),
                    forall|wx2: int, wy1: int, wy2: int, wy3: int, wy4: int, wy5: int, wy6: int|
                        (#[trigger] x3y3_coords_valid(x1 as int, wx2, wy1, wy2, wy3, wy4, wy5, wy6) && wx2 < x2)
                            ==> x3y3_covered(logs@, problem.image, x1 as int, wx2, wy1, wy2, wy3, wy4, wy5, wy6),
                    forall|wy1: int, wy2: int, wy3: int, wy4: int, wy5: int, wy6: int|
                        (#[trigger] x3y3_coords_valid(x1 as int, x2 as int, wy1, wy2, wy3, wy4, wy5, wy6) && wy1 < y1)
                            ==> x3y3_covered(logs@, problem.image, x1 as int, x2 as int, wy1, wy2, wy3, wy4, wy5, wy6),
                decreases 350 - y1,
            {
                let mut y2: i32 = y1 + 50;
                while y2 < 400
                    invariant
                        problem.image.wf(),
                        problem.image.width == 400,
                        problem.image.height == 400,
                        50 <= x1 < 350,
                        x1 % 50 == 0,
                        x1 + 50 <= x2 < 400,
                        x2 % 50 == 0,
                        50 <= y1 < 350,
                        y1 % 50 == 0,
                        y1 + 50 <= y2,
                        y2 % 50 == 0,
                        x3y3_logs_sound(logs@, problem.image),
                        forall|wx1: int, wx2: int, wy1: int, wy2: int, wy3: int, wy4: int, wy5: int, wy6: int|
                            (#[trigger] x3y3_coords_valid(wx1, wx2, wy1, wy2, wy3, wy4, wy5, wy6) && wx1 < x1)
                                ==> x3y3_covered(logs@, problem.image, wx1, wx2, wy1, wy2, wy3, wy4, wy5, wy6),
                        forall|wx2: int, wy1: int, wy2: int, wy3: int, wy4: int, wy5: int, wy6: int|
                            (#[trigger] x3y3_coords_valid(x1 as int, wx2, wy1, wy2, wy3, wy4, wy5, wy6) && wx2 < x2)
                                ==> x3y3_covered(logs@, problem.image, x1 as int, wx2, wy1, wy2, wy3, wy4, wy5, wy6),
                        forall|wy1: int, wy2: int, wy3: int, wy4: int, wy5: int, wy6: int|
                            (#[trigger] x3y3_coords_valid(x1 as int, x2 as int, wy1, wy2, wy3, wy4, wy5, wy6) && wy1 < y1)
                                ==> x3y3_covered(logs@, problem.image, x1 as int, x2 as int, wy1, wy2, wy3, wy4, wy5, wy6),
                        forall|wy2: int, wy3: int, wy4: int, wy5: int, wy6: int|
                            (#[trigger] x3y3_coords_valid(x1 as int, x2 as int, y1 as int, wy2, wy3, wy4, wy5, wy6) && wy2 < y2)
                                ==> x3y3_covered(logs@, problem.image, x1 as int, x2 as int, y1 as int, wy2, wy3, wy4, wy5, wy6),
                    decreases 400 - y2,
                {
                    let mut y3: i32 = 50;
                    while y3 < 350
                        invariant
                            problem.image.wf(),
                            problem.image.width == 400,
                            problem.image.height == 400,
                            50 <= x1 < 350,
                            x1 % 50 == 0,
                            x1 + 50 <= x2 < 400,
                            x2 % 50 == 0,
                            50 <= y1 < 350,
                            y1 % 50 == 0,
                            y1 + 50 <= y2 < 400,
                            y2 % 50 == 0,
                            50 <= y3,
                            y3 % 50 == 0,
                            x3y3_logs_sound(logs@, problem.image),
                            forall|wx1: int, wx2: int, wy1: int, wy2: int, wy3: int, wy4: int, wy5: int, wy6: int|
                                (#[trigger] x3y3_coords_valid(wx1, wx2, wy1, wy2, wy3, wy4, wy5, wy6) && wx1 < x1)
                                    ==> x3y3_covered(logs@, problem.image, wx1, wx2, wy1, wy2, wy3, wy4, wy5, wy6),
                            forall|wx2: int, wy1: int, wy2: int, wy3: int, wy4: int, wy5: int, wy6: int|
                                (#[trigger] x3y3_coords_valid(x1 as int, wx2, wy1, wy2, wy3, wy4, wy5, wy6) && wx2 < x2)
                                    ==> x3y3_covered(logs@, problem.image, x1 as int, wx2, wy1, wy2, wy3, wy4, wy5, wy6),
                            forall|wy1: int, wy2: int, wy3: int, wy4: int, wy5: int, wy6: int|
                                (#[trigger] x3y3_coords_valid(x1 as int, x2 as int, wy1, wy2, wy3, wy4, wy5, wy6) && wy1 < y1)
                                    ==> x3y3_covered(logs@, problem.image, x1 as int, x2 as int, wy1, wy2, wy3, wy4, wy5, wy6),
                            forall|wy2: int, wy3: int, wy4: int, wy5: int, wy6: int|
                                (#[trigger] x3y3_coords_valid(x1 as int, x2 as int, y1 as int, wy2, wy3, wy4, wy5, wy6) && wy2 < y2)
                                    ==> x3y3_covered(logs@, problem.image, x1 as int, x2 as int, y1 as int, wy2, wy3, wy4, wy5, wy6),
                            forall|wy3: int, wy4: int, wy5: int, wy6: int|
                                (#[trigger] x3y3_coords_valid(x1 as int, x2 as int, y1 as int, y2 as int, wy3, wy4, wy5, wy6) && wy3 < y3)
                                    ==> x3y3_covered(logs@, problem.image, x1 as int, x2 as int, y1 as int, y2 as int, wy3, wy4, wy5, wy6),
                        decreases 350 - y3,
                    {
                        let mut y4: i32 = y3 + 50;
                        while y4 < 400
                            invariant
                                problem.image.wf(),
                                problem.image.width == 400,
                                problem.image.height == 400,
                                50 <= x1 < 350,
                                x1 % 50 == 0,
                                x1 + 50 <= x2 < 400,
                                x2 % 50 == 0,
                                50 <= y1 < 350,
                                y1 % 50 == 0,
                                y1 + 50 <= y2 < 400,
                                y2 % 50 == 0,
                                50 <= y3 < 350,
                                y3 % 50 == 0,
                                y3 + 50 <= y4,
                                y4 % 50 == 0,
                                x3y3_logs_sound(logs@, problem.image),
                                forall|wx1: int, wx2: int, wy1: int, wy2: int, wy3: int, wy4: int, wy5: int, wy6: int|
                                    (#[trigger] x3y3_coords_valid(wx1, wx2, wy1, wy2, wy3, wy4, wy5, wy6) && wx1 < x1)
                                        ==> x3y3_covered(logs@, problem.image, wx1, wx2, wy1, wy2, wy3, wy4, wy5, wy6),
                                forall|wx2: int, wy1: int, wy2: int, wy3: int, wy4: int, wy5: int, wy6: int|
                                    (#[trigger] x3y3_coords_valid(x1 as int, wx2, wy1, wy2, wy3, wy4, wy5, wy6) && wx2 < x2)
                                        ==> x3y3_covered(logs@, problem.image, x1 as int, wx2, wy1, wy2, wy3, wy4, wy5, wy6),
                                forall|wy1: int, wy2: int, wy3: int, wy4: int, wy5: int, wy6: int|
                                    (#[trigger] x3y3_coords_valid(x1 as int, x2 as int, wy1, wy2, wy3, wy4, wy5, wy6) && wy1 < y1)
                                        ==> x3y3_covered(logs@, problem.image, x1 as int, x2 as int, wy1, wy2, wy3, wy4, wy5, wy6),
                                forall|wy2: int, wy3: int, wy4: int, wy5: int, wy6: int|
                                    (#[trigger] x3y3_coords_valid(x1 as int, x2 as int, y1 as int, wy2, wy3, wy4, wy5, wy6) && wy2 < y2)
                                        ==> x3y3_covered(logs@, problem.image, x1 as int, x2 as int, y1 as int, wy2, wy3, wy4, wy5, wy6),
                                forall|wy3: int, wy4: int, wy5: int, wy6: int|
                                    (#[trigger] x3y3_coords_valid(x1 as int, x2 as int, y1 as int, y2 as int, wy3, wy4, wy5, wy6) && wy3 < y3)
                                        ==> x3y3_covered(logs@, problem.image, x1 as int, x2 as int, y1 as int, y2 as int, wy3, wy4, wy5, wy6),
                                forall|wy4: int, wy5: int, wy6: int|
                                    (#[trigger] x3y3_coords_valid(x1 as int, x2 as int, y1 as int, y2 as int, y3 as int, wy4, wy5, wy6) && wy4 < y4)
                                        ==> x3y3_covered(logs@, problem.image, x1 as int, x2 as int, y1 as int, y2 as int, y3 as int, wy4, wy5, wy6),
                            decreases 400 - y4,
                        {
                            let mut y5: i32 = 50;
                            while y5 < 350
                                invariant
                                    problem.image.wf(),
                                    problem.image.width == 400,
                                    problem.image.height == 400,
                                    50 <= x1 < 350,
                                    x1 % 50 == 0,
                                    x1 + 50 <= x2 < 400,
                                    x2 % 50 == 0,
                                    50 <= y1 < 350,
                                    y1 % 50 == 0,
                                    y1 + 50 <= y2 < 400,
                                    y2 % 50 == 0,
                                    50 <= y3 < 350,
                                    y3 % 50 == 0,
                                    y3 + 50 <= y4 < 400,
                                    y4 % 50 == 0,
                                    50 <= y5,
                                    y5 % 50 == 0,
                                    x3y3_logs_sound(logs@, problem.image),
                                    forall|wx1: int, wx2: int, wy1: int, wy2: int, wy3: int, wy4: int, wy5: int, wy6: int|
                                        (#[trigger] x3y3_coords_valid(wx1, wx2, wy1, wy2, wy3, wy4, wy5, wy6) && wx1 < x1)
                                            ==> x3y3_covered(logs@, problem.image, wx1, wx2, wy1, wy2, wy3, wy4, wy5, wy6),
                                    forall|wx2: int, wy1: int, wy2: int, wy3: int, wy4: int, wy5: int, wy6: int|
                                        (#[trigger] x3y3_coords_valid(x1 as int, wx2, wy1, wy2, wy3, wy4, wy5, wy6) && wx2 < x2)
                                            ==> x3y3_covered(logs@, problem.image, x1 as int, wx2, wy1, wy2, wy3, wy4, wy5, wy6),
                                    forall|wy1: int, wy2: int, wy3: int, wy4: int, wy5: int, wy6: int|
                                        (#[trigger] x3y3_coords_valid(x1 as int, x2 as int, wy1, wy2, wy3, wy4, wy5, wy6) && wy1 < y1)
                                            ==> x3y3_covered(logs@, problem.image, x1 as int, x2 as int, wy1, wy2, wy3, wy4, wy5, wy6),
                                    forall|wy2: int, wy3: int, wy4: int, wy5: int, wy6: int|
                                        (#[trigger] x3y3_coords_valid(x1 as int, x2 as int, y1 as int, wy2, wy3, wy4, wy5, wy6) && wy2 < y2)
                                            ==> x3y3_covered(logs@, problem.image, x1 as int, x2 as int, y1 as int, wy2, wy3, wy4, wy5, wy6),
                                    forall|wy3: int, wy4: int, wy5: int, wy6: int|
                                        (#[trigger] x3y3_coords_valid(x1 as int, x2 as int, y1 as int, y2 as int, wy3, wy4, wy5, wy6) && wy3 < y3)
                                            ==> x3y3_covered(logs@, problem.image, x1 as int, x2 as int, y1 as int, y2 as int, wy3, wy4, wy5, wy6),
                                    forall|wy4: int, wy5: int, wy6: int|
                                        (#[trigger] x3y3_coords_valid(x1 as int, x2 as int, y1 as int, y2 as int, y3 as int, wy4, wy5, wy6) && wy4 < y4)
                                            ==> x3y3_covered(logs@, problem.image, x1 as int, x2 as int, y1 as int, y2 as int, y3 as int, wy4, wy5, wy6),
                                    forall|wy5: int, wy6: int|
                                        (#[trigger] x3y3_coords_valid(x1 as int, x2 as int, y1 as int, y2 as int, y3 as int, y4 as int, wy5, wy6) && wy5 < y5)
                                            ==> x3y3_covered(logs@, problem.image, x1 as int, x2 as int, y1 as int, y2 as int, y3 as int, y4 as int, wy5, wy6),
                                decreases 350 - y5,
                            {
                                let mut y6: i32 = y5 + 50;
                                while y6 < 400
                                    invariant
                                        problem.image.wf(),
                                        problem.image.width == 400,
                                        problem.image.height == 400,
                                        50 <= x1 < 350,
                                        x1 % 50 == 0,
                                        x1 + 50 <= x2 < 400,
                                        x2 % 50 == 0,
                                        50 <= y1 < 350,
                                        y1 % 50 == 0,
                                        y1 + 50 <= y2 < 400,
                                        y2 % 50 == 0,
                                        50 <= y3 < 350,
                                        y3 % 50 == 0,
                                        y3 + 50 <= y4 < 400,
                                        y4 % 50 == 0,
                                        50 <= y5 < 350,
                                        y5 % 50 == 0,
                                        y5 + 50 <= y6,
                                        y6 % 50 == 0,
                                        x3y3_logs_sound(logs@, problem.image),
                                        forall|wx1: int, wx2: int, wy1: int, wy2: int, wy3: int, wy4: int, wy5: int, wy6: int|
                                            (#[trigger] x3y3_coords_valid(wx1, wx2, wy1, wy2, wy3, wy4, wy5, wy6) && wx1 < x1)
                                                ==> x3y3_covered(logs@, problem.image, wx1, wx2, wy1, wy2, wy3, wy4, wy5, wy6),
                                        forall|wx2: int, wy1: int, wy2: int, wy3: int, wy4: int, wy5: int, wy6: int|
                                            (#[trigger] x3y3_coords_valid(x1 as int, wx2, wy1, wy2, wy3, wy4, wy5, wy6) && wx2 < x2)
                                                ==> x3y3_covered(logs@, problem.image, x1 as int, wx2, wy1, wy2, wy3, wy4, wy5, wy6),
                                        forall|wy1: int, wy2: int, wy3: int, wy4: int, wy5: int, wy6: int|
                                            (#[trigger] x3y3_coords_valid(x1 as int, x2 as int, wy1, wy2, wy3, wy4, wy5, wy6) && wy1 < y1)
                                                ==> x3y3_covered(logs@, problem.image, x1 as int, x2 as int, wy1, wy2, wy3, wy4, wy5, wy6),
                                        forall|wy2: int, wy3: int, wy4: int, wy5: int, wy6: int|
                                            (#[trigger] x3y3_coords_valid(x1 as int, x2 as int, y1 as int, wy2, wy3, wy4, wy5, wy6) && wy2 < y2)
                                                ==> x3y3_covered(logs@, problem.image, x1 as int, x2 as int, y1 as int, wy2, wy3, wy4, wy5, wy6),
                                        forall|wy3: int, wy4: int, wy5: int, wy6: int|
                                            (#[trigger] x3y3_coords_valid(x1 as int, x2 as int, y1 as int, y2 as int, wy3, wy4, wy5, wy6) && wy3 < y3)
                                                ==> x3y3_covered(logs@, problem.image, x1 as int, x2 as int, y1 as int, y2 as int, wy3, wy4, wy5, wy6),
                                        forall|wy4: int, wy5: int, wy6: int|
                                            (#[trigger] x3y3_coords_valid(x1 as int, x2 as int, y1 as int, y2 as int, y3 as int, wy4, wy5, wy6) && wy4 < y4)
                                                ==> x3y3_covered(logs@, problem.image, x1 as int, x2 as int, y1 as int, y2 as int, y3 as int, wy4, wy5, wy6),
                                        forall|wy5: int, wy6: int|
                                            (#[trigger] x3y3_coords_valid(x1 as int, x2 as int, y1 as int, y2 as int, y3 as int, y4 as int, wy5, wy6) && wy5 < y5)
                                                ==> x3y3_covered(logs@, problem.image, x1 as int, x2 as int, y1 as int, y2 as int, y3 as int, y4 as int, wy5, wy6),
                                        forall|wy6: int|
                                            (#[trigger] x3y3_coords_valid(x1 as int, x2 as int, y1 as int, y2 as int, y3 as int, y4 as int, y5 as int, wy6) && wy6 < y6)
                                                ==> x3y3_covered(logs@, problem.image, x1 as int, x2 as int, y1 as int, y2 as int, y3 as int, y4 as int, y5 as int, wy6),
                                    decreases 400 - y6,
                                {
                                    let c000 = problem.color(0, 0, x1, y1);
                                    let c0010 = problem.color(0, y1, x1, y2);
                                    let c0011 = problem.color(0, y2, x1, 400);
                                    let c0100 = problem.color(x1, 0, x2, y1);
                                    let c01010 = problem.color(x1, y1, x2, y2);
                                    let c01011 = problem.color(x1, y2, x2, 400);
                                    let c0110 = problem.color(x2, 0, 400, y1);
                                    let c01110 = problem.color(x2, y1, 400, y2);
                                    let c01111 = problem.color(x2, y2, 400, 400);
                                    let mut log: Log = Vec::new();
                                    log.push(color_op("0", c000));
                                    log.push(xcut_op("0", x1));
                                    log.push(color_op("0.1", c0100));
                                    log.push(xcut_op("0.1", x2));
                                    log.push(color_op("0.1.1", c0110));
                                    log.push(ycut_op("0.0", y1));
                                    log.push(color_op("0.0.1", c0010));
                                    log.push(ycut_op("0.0.1", y2));
                                    log.push(color_op("0.0.1.1", c0011));
                                    log.push(ycut_op("0.1.0", y3));
                                    log.push(color_op("0.1.0.1", c01010));
                                    log.push(ycut_op("0.1.0.1", y4));
                                    log.push(color_op("0.1.0.1.1", c01011));
                                    log.push(ycut_op("0.1.1", y5));
                                    log.push(color_op("0.1.1.1", c01110));
                                    log.push(ycut_op("0.1.1.1", y6));
                                    log.push(color_op("0.1.1.1.1", c01111));
                                    proof {
                                        assert(x3y3_coords_valid(x1 as int, x2 as int, y1 as int, y2 as int, y3 as int, y4 as int, y5 as int, y6 as int));
                                        assert(x3y3_log_shape(log@, problem.image, x1 as int, x2 as int, y1 as int, y2 as int, y3 as int, y4 as int, y5 as int, y6 as int));
                                    }
                                    let ghost pre = logs@;
                                    let ghost nl = log;
                                    logs.push(log);
                                    proof {
                                        lemma_x3y3_covered_push(pre, nl, problem.image);
                                        assert(logs@[logs@.len() - 1] == nl);
                                        assert(x3y3_covered(logs@, problem.image, x1 as int, x2 as int, y1 as int, y2 as int, y3 as int, y4 as int, y5 as int, y6 as int));
                                    }
                                    proof {
                                        assert forall|wy6: int|
                                            (#[trigger] x3y3_coords_valid(x1 as int, x2 as int, y1 as int, y2 as int, y3 as int, y4 as int, y5 as int, wy6) && wy6 < y6 + 50) implies x3y3_covered(
                                            logs@,
                                            problem.image,
                                            x1 as int, x2 as int, y1 as int, y2 as int, y3 as int, y4 as int, y5 as int, wy6,
                                        ) by {
                                            if wy6 < y6 {
                                            } else {
                                                assert(wy6 == y6);
                                                assert(x3y3_covered(logs@, problem.image, x1 as int, x2 as int, y1 as int, y2 as int, y3 as int, y4 as int, y5 as int, wy6));
                                            }
                                        }
                                    }
                                    y6 = y6 + 50;
                                }
                                proof {
                                    assert forall|wy5: int, wy6: int|
                                        (#[trigger] x3y3_coords_valid(x1 as int, x2 as int, y1 as int, y2 as int, y3 as int, y4 as int, wy5, wy6) && wy5 < y5 + 50) implies x3y3_covered(
                                        logs@,
                                        problem.image,
                                        x1 as int, x2 as int, y1 as int, y2 as int, y3 as int, y4 as int, wy5, wy6,
                                    ) by {
                                        if wy5 < y5 {
                                        } else {
                                            assert(wy5 == y5);
                                            assert(x3y3_coords_valid(x1 as int, x2 as int, y1 as int, y2 as int, y3 as int, y4 as int, y5 as int, wy6));
                                            assert(x3y3_covered(logs@, problem.image, x1 as int, x2 as int, y1 as int, y2 as int, y3 as int, y4 as int, y5 as int, wy6));
                                        }
                                    }
                                }
                                y5 = y5 + 50;
                            }
                            proof {
                                assert forall|wy4: int, wy5: int, wy6: int|
                                    (#[trigger] x3y3_coords_valid(x1 as int, x2 as int, y1 as int, y2 as int, y3 as int, wy4, wy5, wy6) && wy4 < y4 + 50) implies x3y3_covered(
                                    logs@,
                                    problem.image,
                                    x1 as int, x2 as int, y1 as int, y2 as int, y3 as int, wy4, wy5, wy6,
                                ) by {
                                    if wy4 < y4 {
                                    } else {
                                        assert(wy4 == y4);
                                        assert(x3y3_coords_valid(x1 as int, x2 as int, y1 as int, y2 as int, y3 as int, y4 as int, wy5, wy6));
                                        assert(x3y3_covered(logs@, problem.image, x1 as int, x2 as int, y1 as int, y2 as int, y3 as int, y4 as int, wy5, wy6));
                                    }
                                }
                            }
                            y4 = y4 + 50;
                        }
                        proof {
                            assert forall|wy3: int, wy4: int, wy5: int, wy6: int|
                                (#[trigger] x3y3_coords_valid(x1 as int, x2 as int, y1 as int, y2 as int, wy3, wy4, wy5, wy6) && wy3 < y3 + 50) implies x3y3_covered(
                                logs@,
                                problem.image,
                                x1 as int, x2 as int, y1 as int, y2 as int, wy3, wy4, wy5, wy6,
                            ) by {
                                if wy3 < y3 {
                                } else {
                                    assert(wy3 == y3);
                                    assert(x3y3_coords_valid(x1 as int, x2 as int, y1 as int, y2 as int, y3 as int, wy4, wy5, wy6));
                                    assert(x3y3_covered(logs@, problem.image, x1 as int, x2 as int, y1 as int, y2 as int, y3 as int, wy4, wy5, wy6));
                                }
                            }
                        }
                        y3 = y3 + 50;
                    }
                    proof {
                        assert forall|wy2: int, wy3: int, wy4: int, wy5: int, wy6: int|
                            (#[trigger] x3y3_coords_valid(x1 as int, x2 as int, y1 as int, wy2, wy3, wy4, wy5, wy6) && wy2 < y2 + 50) implies x3y3_covered(
                            logs@,
                            problem.image,
                            x1 as int, x2 as int, y1 as int, wy2, wy3, wy4, wy5, wy6,
                        ) by {
                            if wy2 < y2 {
                            } else {
                                assert(wy2 == y2);
                                assert(x3y3_coords_valid(x1 as int, x2 as int, y1 as int, y2 as int, wy3, wy4, wy5, wy6));
                                assert(x3y3_covered(logs@, problem.image, x1 as int, x2 as int, y1 as int, y2 as int, wy3, wy4, wy5, wy6));
                            }
                        }
                    }
                    y2 = y2 + 50;
                }
                proof {
                    assert forall|wy1: int, wy2: int, wy3: int, wy4: int, wy5: int, wy6: int|
                        (#[trigger] x3y3_coords_valid(x1 as int, x2 as int, wy1, wy2, wy3, wy4, wy5, wy6) && wy1 < y1 + 50) implies x3y3_covered(
                        logs@,
                        problem.image,
                        x1 as int, x2 as int, wy1, wy2, wy3, wy4, wy5, wy6,
                    ) by {
                        if wy1 < y1 {
                        } else {
                            assert(wy1 == y1);
                            assert(x3y3_coords_valid(x1 as int, x2 as int, y1 as int, wy2, wy3, wy4, wy5, wy6));
                            assert(x3y3_covered(logs@, problem.image, x1 as int, x2 as int, y1 as int, wy2, wy3, wy4, wy5, wy6));
                        }
                    }
                }
                y1 = y1 + 50;
            }
            proof {
                assert forall|wx2: int, wy1: int, wy2: int, wy3: int, wy4: int, wy5: int, wy6: int|
                    (#[trigger] x3y3_coords_valid(x1 as int, wx2, wy1, wy2, wy3, wy4, wy5, wy6) && wx2 < x2 + 50) implies x3y3_covered(
                    logs@,
                    problem.image,
                    x1 as int, wx2, wy1, wy2, wy3, wy4, wy5, wy6,
                ) by {
                    if wx2 < x2 {
                    } else {
                        assert(wx2 == x2);
                        assert(x3y3_coords_valid(x1 as int, x2 as int, wy1, wy2, wy3, wy4, wy5, wy6));
                        assert(x3y3_covered(logs@, problem.image, x1 as int, x2 as int, wy1, wy2, wy3, wy4, wy5, wy6));
                    }
                }
            }
            x2 = x2 + 50;
        }
        proof {
            assert forall|wx1: int, wx2: int, wy1: int, wy2: int, wy3: int, wy4: int, wy5: int, wy6: int|
                (#[trigger] x3y3_coords_valid(wx1, wx2, wy1, wy2, wy3, wy4, wy5, wy6) && wx1 < x1 + 50) implies x3y3_covered(
                logs@,
                problem.image,
                wx1, wx2, wy1, wy2, wy3, wy4, wy5, wy6,
            ) by {
                if wx1 < x1 {
                } else {
                    assert(wx1 == x1);
                    assert(x3y3_coords_valid(x1 as int, wx2, wy1, wy2, wy3, wy4, wy5, wy6));
                    assert(x3y3_covered(logs@, problem.image, x1 as int, wx2, wy1, wy2, wy3, wy4, wy5, wy6));
                }
            }
        }
        x1 = x1 + 50;
    }
    proof {
        assert forall|k: int| 0 <= k < logs@.len() implies replay_spec(
            initial_entries(400, 400),
            400,
            400,
            (#[trigger] logs@[k])@,
        ) is Some by {
            let (x1, x2, y1, y2, y3, y4, y5, y6) = choose|x1: int, x2: int, y1: int, y2: int, y3: int, y4: int, y5: int, y6: int|
                x3y3_coords_valid(x1, x2, y1, y2, y3, y4, y5, y6) && x3y3_log_shape((logs@[k])@, problem.image, x1, x2, y1, y2, y3, y4, y5, y6);
            lemma_x3y3_log_replays((logs@[k])@, problem.image, x1, x2, y1, y2, y3, y4, y5, y6);
        }
        assert forall|wx1: int, wx2: int, wy1: int, wy2: int, wy3: int, wy4: int, wy5: int, wy6: int| #[trigger] x3y3_coords_valid(wx1, wx2, wy1, wy2, wy3, wy4, wy5, wy6) implies x3y3_covered(
            logs@,
            problem.image,
            wx1, wx2, wy1, wy2, wy3, wy4, wy5, wy6,
        ) by {
            assert(wx1 < x1);
        }
    }
    logs
}

/// A first entry pins the position that `first_key_index` chooses.
proof fn lemma_first_key_pins(s: Entries, id: Seq<char>, i: int)
    requires
        is_first_key(s, id, i),
    ensures
        has_key(s, id),
        first_key_index(s, id) == i,
{
    assert(has_key(s, id)) by {
        assert(0 <= i < s.len() && s[i].0 == id);
    }
    assert(is_first_key(s, id, first_key_index(s, id)));
}

/// A recolor of a present block succeeds: its cost is defined and it removes
/// the entry and appends the recolored leaf.
proof fn lemma_recolor_step(s: Entries, op: Operation, id: Seq<char>, c: Color, i: int, w: int, h: int)
    requires
        is_color_op(op, id, c),
        is_first_key(s, id, i),
    ensures
        spec_op_cost(s, w, h, op) is Some,
        spec_apply(s, op) == Some(
            s.remove(i).push((id, BlockV::Leaf { shape: s[i].1.shape(), color: c })),
        ),
{
    lemma_first_key_pins(s, id, i);
}

/// The entries after a vertical cut of a leaf: the leaf replaced by its two
/// halves, appended in order under the child identifiers.
pub open spec fn leaf_xcut_result(s: Entries, i: int, id: Seq<char>, sh: Shape, c: Color, x: i32) -> Entries {
    s.remove(i).push(
        (child_id_chars(id, 0), BlockV::Leaf { shape: Shape { l: sh.l, b: sh.b, r: x, t: sh.t }, color: c }),
    ).push(
        (child_id_chars(id, 1), BlockV::Leaf { shape: Shape { l: x, b: sh.b, r: sh.r, t: sh.t }, color: c }),
    )
}

/// A vertical cut of a present leaf at an interior coordinate succeeds, when
/// the two child identifiers are not yet taken.
proof fn lemma_leaf_xcut_step(
    s: Entries,
    op: Operation,
    id: Seq<char>,
    x: i32,
    i: int,
    sh: Shape,
    c: Color,
    w: int,
    h: int,
)
    requires
        is_xcut_op(op, id, x as int),
        is_first_key(s, id, i),
        s[i].1 == (BlockV::Leaf { shape: sh, color: c }),
        sh.l < x < sh.r,
        !has_key(s.remove(i), child_id_chars(id, 0)),
        !has_key(s.remove(i), child_id_chars(id, 1)),
        child_id_chars(id, 0) != child_id_chars(id, 1),
    ensures
        spec_op_cost(s, w, h, op) is Some,
        spec_apply(s, op) == Some(leaf_xcut_result(s, i, id, sh, c, x)),
{
    lemma_first_key_pins(s, id, i);
    let bv = s[i].1;
    let cut = Cut::X(x);
    assert(cut_valid(sh, cut));
    let news = cut_new_entries(id, bv, cut);
    let e0 = (child_id_chars(id, 0), BlockV::Leaf {
        shape: Shape { l: sh.l, b: sh.b, r: x, t: sh.t },
        color: c,
    });
    let e1 = (child_id_chars(id, 1), BlockV::Leaf {
        shape: Shape { l: x, b: sh.b, r: sh.r, t: sh.t },
        color: c,
    });
    assert(news =~= seq![e0, e1]);
    let base = s.remove(i);
    assert(!has_key(base.push(e0), e1.0)) by {
        assert(forall|n: int| 0 <= n < base.push(e0).len() ==> (#[trigger] base.push(e0)[n]).0
            != e1.0);
    }
    lemma_upsert_all_two(base, e0, e1);
    assert(spec_apply(s, op) == Some(leaf_xcut_result(s, i, id, sh, c, x)));
}

/// The entries after a horizontal cut of a leaf: the leaf replaced by its
/// two halves, appended in order under the child identifiers.
pub open spec fn leaf_ycut_result(s: Entries, i: int, id: Seq<char>, sh: Shape, c: Color, y: i32) -> Entries {
    s.remove(i).push(
        (child_id_chars(id, 0), BlockV::Leaf { shape: Shape { l: sh.l, b: sh.b, r: sh.r, t: y }, color: c }),
    ).push(
        (child_id_chars(id, 1), BlockV::Leaf { shape: Shape { l: sh.l, b: y, r: sh.r, t: sh.t }, color: c }),
    )
}

/// A horizontal cut of a present leaf at an interior coordinate succeeds,
/// when the two child identifiers are not yet taken.
proof fn lemma_leaf_ycut_step(
    s: Entries,
    op: Operation,
    id: Seq<char>,
    y: i32,
    i: int,
    sh: Shape,
    c: Color,
    w: int,
    h: int,
)
    requires
        is_ycut_op(op, id, y as int),
        is_first_key(s, id, i),
        s[i].1 == (BlockV::Leaf { shape: sh, color: c }),
        sh.b < y < sh.t,
        !has_key(s.remove(i), child_id_chars(id, 0)),
        !has_key(s.remove(i), child_id_chars(id, 1)),
        child_id_chars(id, 0) != child_id_chars(id, 1),
    ensures
        spec_op_cost(s, w, h, op) is Some,
        spec_apply(s, op) == Some(leaf_ycut_result(s, i, id, sh, c, y)),
{
    lemma_first_key_pins(s, id, i);
    let bv = s[i].1;
    let cut = Cut::Y(y);
    assert(cut_valid(sh, cut));
    let news = cut_new_entries(id, bv, cut);
    let e0 = (child_id_chars(id, 0), BlockV::Leaf {
        shape: Shape { l: sh.l, b: sh.b, r: sh.r, t: y },
        color: c,
    });
    let e1 = (child_id_chars(id, 1), BlockV::Leaf {
        shape: Shape { l: sh.l, b: y, r: sh.r, t: sh.t },
        color: c,
    });
    assert(news =~= seq![e0, e1]);
    let base = s.remove(i);
    assert(!has_key(base.push(e0), e1.0)) by {
        assert(forall|n: int| 0 <= n < base.push(e0).len() ==> (#[trigger] base.push(e0)[n]).0
            != e1.0);
    }
    lemma_upsert_all_two(base, e0, e1);
    assert(spec_apply(s, op) == Some(leaf_ycut_result(s, i, id, sh, c, y)));
}

/// The entries after a point cut of a leaf: the leaf replaced by its four
/// quadrants, appended in the fixed order under the child identifiers.
pub open spec fn leaf_pcut_result(s: Entries, i: int, id: Seq<char>, sh: Shape, c: Color, p: Point) -> Entries {
    s.remove(i).push(
        (child_id_chars(id, 0), BlockV::Leaf { shape: Shape { l: sh.l, b: sh.b, r: p.x, t: p.y }, color: c }),
    ).push(
        (child_id_chars(id, 1), BlockV::Leaf { shape: Shape { l: p.x, b: sh.b, r: sh.r, t: p.y }, color: c }),
    ).push(
        (child_id_chars(id, 2), BlockV::Leaf { shape: Shape { l: p.x, b: p.y, r: sh.r, t: sh.t }, color: c }),
    ).push(
        (child_id_chars(id, 3), BlockV::Leaf { shape: Shape { l: sh.l, b: p.y, r: p.x, t: sh.t }, color: c }),
    )
}

/// A point cut of a present leaf at an interior point succeeds, when the
/// four child identifiers are not yet taken.
proof fn lemma_leaf_pcut_step(
    s: Entries,
    op: Operation,
    id: Seq<char>,
    p: Point,
    i: int,
    sh: Shape,
    c: Color,
    w: int,
    h: int,
)
    requires
        is_pcut_op(op, id, p.x as int, p.y as int),
        is_first_key(s, id, i),
        s[i].1 == (BlockV::Leaf { shape: sh, color: c }),
        sh.spec_interior(p),
        forall|j: int| 0 <= j < 4 ==> !has_key(s.remove(i), #[trigger] child_id_chars(id, j)),
        forall|j1: int, j2: int|
            0 <= j1 < j2 < 4 ==> #[trigger] child_id_chars(id, j1) != #[trigger] child_id_chars(
                id,
                j2,
            ),
    ensures
        spec_op_cost(s, w, h, op) is Some,
        spec_apply(s, op) == Some(leaf_pcut_result(s, i, id, sh, c, p)),
{
    lemma_first_key_pins(s, id, i);
    let bv = s[i].1;
    let cut = Cut::P(p);
    assert(cut_valid(sh, cut));
    let news = cut_new_entries(id, bv, cut);
    let e0 = (child_id_chars(id, 0), BlockV::Leaf {
        shape: Shape { l: sh.l, b: sh.b, r: p.x, t: p.y },
        color: c,
    });
    let e1 = (child_id_chars(id, 1), BlockV::Leaf {
        shape: Shape { l: p.x, b: sh.b, r: sh.r, t: p.y },
        color: c,
    });
    let e2 = (child_id_chars(id, 2), BlockV::Leaf {
        shape: Shape { l: p.x, b: p.y, r: sh.r, t: sh.t },
        color: c,
    });
    let e3 = (child_id_chars(id, 3), BlockV::Leaf {
        shape: Shape { l: sh.l, b: p.y, r: p.x, t: sh.t },
        color: c,
    });
    assert(news =~= seq![e0, e1, e2, e3]);
    let base = s.remove(i);
    assert(!has_key(base, e0.0));
    assert(!has_key(base.push(e0), e1.0)) by {
        assert(forall|n: int| 0 <= n < base.push(e0).len() ==> (#[trigger] base.push(e0)[n]).0
            != e1.0);
    }
    assert(!has_key(base.push(e0).push(e1), e2.0)) by {
        let m = base.push(e0).push(e1);
        assert(forall|n: int| 0 <= n < m.len() ==> (#[trigger] m[n]).0 != e2.0);
    }
    assert(!has_key(base.push(e0).push(e1).push(e2), e3.0)) by {
        let m = base.push(e0).push(e1).push(e2);
        assert(forall|n: int| 0 <= n < m.len() ==> (#[trigger] m[n]).0 != e3.0);
    }
    lemma_upsert_all_four(base, e0, e1, e2, e3);
    assert(spec_apply(s, op) == Some(leaf_pcut_result(s, i, id, sh, c, p)));
}

/// Inserting two entries with fresh, distinct identifiers appends them.
proof fn lemma_upsert_all_two(base: Entries, e0: (Seq<char>, BlockV), e1: (Seq<char>, BlockV))
    requires
        !has_key(base, e0.0),
        !has_key(base.push(e0), e1.0),
    ensures
        upsert_all(base, seq![e0, e1]) == base.push(e0).push(e1),
{
    let news = seq![e0, e1];
    let s1 = seq![e0];
    assert(news.last() == e1);
    assert(news.drop_last() =~= s1);
    assert(s1.last() == e0);
    assert(s1.drop_last() =~= Seq::<(Seq<char>, BlockV)>::empty());
    assert(upsert_all(base, s1.drop_last()) == base);
    assert(upsert_all(base, s1) == upsert_one(base, e0.0, e0.1));
    assert(upsert_one(base, e0.0, e0.1) == base.push(e0));
    assert(upsert_all(base, news) == upsert_one(upsert_all(base, news.drop_last()), e1.0, e1.1));
    assert(upsert_one(base.push(e0), e1.0, e1.1) == base.push(e0).push(e1));
}

/// Inserting four entries with fresh, pairwise distinct identifiers appends
/// them in order.
proof fn lemma_upsert_all_four(
    base: Entries,
    e0: (Seq<char>, BlockV),
    e1: (Seq<char>, BlockV),
    e2: (Seq<char>, BlockV),
    e3: (Seq<char>, BlockV),
)
    requires
        !has_key(base, e0.0),
        !has_key(base.push(e0), e1.0),
        !has_key(base.push(e0).push(e1), e2.0),
        !has_key(base.push(e0).push(e1).push(e2), e3.0),
    ensures
        upsert_all(base, seq![e0, e1, e2, e3]) == base.push(e0).push(e1).push(e2).push(e3),
{
    let news = seq![e0, e1, e2, e3];
    lemma_upsert_all_two(base, e0, e1);
    let news2 = seq![e0, e1, e2];
    assert(news2.last() == e2);
    assert(news2.drop_last() =~= seq![e0, e1]);
    assert(upsert_all(base, news2) == upsert_one(upsert_all(base, news2.drop_last()), e2.0, e2.1));
    assert(upsert_one(base.push(e0).push(e1), e2.0, e2.1) == base.push(e0).push(e1).push(e2));
    assert(news.last() == e3);
    assert(news.drop_last() =~= news2);
    assert(upsert_all(base, news) == upsert_one(upsert_all(base, news.drop_last()), e3.0, e3.1));
    assert(upsert_one(base.push(e0).push(e1).push(e2), e3.0, e3.1) == base.push(e0).push(e1).push(
        e2,
    ).push(e3));
}

/// Law: every log the four-vertical-cut engine can emit replays successfully
/// on the fresh 400 by 400 canvas: every identifier it references exists
/// when referenced, and every cut is strictly interior to its block.
pub proof fn lemma_xcut_log_replays(
    log: Seq<Operation>,
    img: Raster,
    x1: int,
    x2: int,
    x3: int,
    x4: int,
)
    requires
        xcut_coords_valid(x1, x2, x3, x4),
        xcut_log_shape(log, img, x1, x2, x3, x4),
    ensures
        replay_spec(initial_entries(400, 400), 400, 400, log) is Some,
{
    reveal_strlit("0");
    reveal_strlit(".");
    reveal_strlit("0.0");
    reveal_strlit("0.1");
    reveal_strlit("0.1.0");
    reveal_strlit("0.1.1");
    reveal_strlit("0.1.1.0");
    reveal_strlit("0.1.1.1");
    reveal_strlit("0.1.1.1.0");
    reveal_strlit("0.1.1.1.1");
    assert(child_id_chars("0"@, 0) =~= "0.0"@);
    assert(child_id_chars("0"@, 1) =~= "0.1"@);
    assert(child_id_chars("0.1"@, 0) =~= "0.1.0"@);
    assert(child_id_chars("0.1"@, 1) =~= "0.1.1"@);
    assert(child_id_chars("0.1.1"@, 0) =~= "0.1.1.0"@);
    assert(child_id_chars("0.1.1"@, 1) =~= "0.1.1.1"@);
    assert(child_id_chars("0.1.1.1"@, 0) =~= "0.1.1.1.0"@);
    assert(child_id_chars("0.1.1.1"@, 1) =~= "0.1.1.1.1"@);
    assert("0.0"@[2] == '0' && "0.1"@[2] == '1');
    assert("0.0"@ != "0.1"@);
    assert("0.1.0"@[4] == '0' && "0.1.1"@[4] == '1');
    assert("0.1.0"@ != "0.1.1"@);
    assert("0.1.1.0"@[6] == '0' && "0.1.1.1"@[6] == '1');
    assert("0.1.1.0"@ != "0.1.1.1"@);
    assert("0.1.1.1.0"@[8] == '0' && "0.1.1.1.1"@[8] == '1');
    assert("0.1.1.1.0"@ != "0.1.1.1.1"@);
    let xa = x1 as i32;
    let xb = x2 as i32;
    let xc = x3 as i32;
    let xd = x4 as i32;
    assert(xa == x1 && xb == x2 && xc == x3 && xd == x4);
    let c1 = spec_region_color(img, 0, 0, x1, 400);
    let c2 = spec_region_color(img, x1, 0, x2, 400);
    let c3 = spec_region_color(img, x2, 0, x3, 400);
    let c4 = spec_region_color(img, x3, 0, x4, 400);
    let c5 = spec_region_color(img, x4, 0, 400, 400);
    let rect = Shape { l: 0, b: 0, r: 400, t: 400 };
    let a0 = Shape { l: 0, b: 0, r: xa, t: 400 };
    let a1 = Shape { l: xa, b: 0, r: 400, t: 400 };
    let b0 = Shape { l: xa, b: 0, r: xb, t: 400 };
    let b1 = Shape { l: xb, b: 0, r: 400, t: 400 };
    let d0 = Shape { l: xb, b: 0, r: xc, t: 400 };
    let d1 = Shape { l: xc, b: 0, r: 400, t: 400 };
    let f0 = Shape { l: xc, b: 0, r: xd, t: 400 };
    let f1 = Shape { l: xd, b: 0, r: 400, t: 400 };

    let s0 = initial_entries(400, 400);
    assert(is_first_key(s0, "0"@, 0));
    lemma_recolor_step(s0, log[0], "0"@, c1, 0, 400, 400);
    let s1 = s0.remove(0).push(("0"@, BlockV::Leaf { shape: rect, color: c1 }));
    assert(spec_apply(s0, log[0]) == Some(s1));
    assert(s1 =~= seq![("0"@, BlockV::Leaf { shape: rect, color: c1 })]);

    assert(is_first_key(s1, "0"@, 0));
    assert(s1.remove(0) =~= Seq::<(Seq<char>, BlockV)>::empty());
    lemma_leaf_xcut_step(s1, log[1], "0"@, xa, 0, rect, c1, 400, 400);
    let s2 = leaf_xcut_result(s1, 0, "0"@, rect, c1, xa);
    assert(spec_apply(s1, log[1]) == Some(s2));
    assert(s2 =~= seq![
        ("0.0"@, BlockV::Leaf { shape: a0, color: c1 }),
        ("0.1"@, BlockV::Leaf { shape: a1, color: c1 }),
    ]);

    assert(is_first_key(s2, "0.1"@, 1));
    lemma_recolor_step(s2, log[2], "0.1"@, c2, 1, 400, 400);
    let s3 = s2.remove(1).push(("0.1"@, BlockV::Leaf { shape: a1, color: c2 }));
    assert(spec_apply(s2, log[2]) == Some(s3));
    assert(s3 =~= seq![
        ("0.0"@, BlockV::Leaf { shape: a0, color: c1 }),
        ("0.1"@, BlockV::Leaf { shape: a1, color: c2 }),
    ]);

    assert(is_first_key(s3, "0.1"@, 1));
    assert(s3.remove(1) =~= seq![("0.0"@, BlockV::Leaf { shape: a0, color: c1 })]);
    lemma_leaf_xcut_step(s3, log[3], "0.1"@, xb, 1, a1, c2, 400, 400);
    let s4 = leaf_xcut_result(s3, 1, "0.1"@, a1, c2, xb);
    assert(spec_apply(s3, log[3]) == Some(s4));
    assert(s4 =~= seq![
        ("0.0"@, BlockV::Leaf { shape: a0, color: c1 }),
        ("0.1.0"@, BlockV::Leaf { shape: b0, color: c2 }),
        ("0.1.1"@, BlockV::Leaf { shape: b1, color: c2 }),
    ]);

    assert(is_first_key(s4, "0.1.1"@, 2));
    lemma_recolor_step(s4, log[4], "0.1.1"@, c3, 2, 400, 400);
    let s5 = s4.remove(2).push(("0.1.1"@, BlockV::Leaf { shape: b1, color: c3 }));
    assert(spec_apply(s4, log[4]) == Some(s5));
    assert(s5 =~= seq![
        ("0.0"@, BlockV::Leaf { shape: a0, color: c1 }),
        ("0.1.0"@, BlockV::Leaf { shape: b0, color: c2 }),
        ("0.1.1"@, BlockV::Leaf { shape: b1, color: c3 }),
    ]);

    assert(is_first_key(s5, "0.1.1"@, 2));
    assert(s5.remove(2) =~= seq![
        ("0.0"@, BlockV::Leaf { shape: a0, color: c1 }),
        ("0.1.0"@, BlockV::Leaf { shape: b0, color: c2 }),
    ]);
    lemma_leaf_xcut_step(s5, log[5], "0.1.1"@, xc, 2, b1, c3, 400, 400);
    let s6 = leaf_xcut_result(s5, 2, "0.1.1"@, b1, c3, xc);
    assert(spec_apply(s5, log[5]) == Some(s6));
    assert(s6 =~= seq![
        ("0.0"@, BlockV::Leaf { shape: a0, color: c1 }),
        ("0.1.0"@, BlockV::Leaf { shape: b0, color: c2 }),
        ("0.1.1.0"@, BlockV::Leaf { shape: d0, color: c3 }),
        ("0.1.1.1"@, BlockV::Leaf { shape: d1, color: c3 }),
    ]);

    assert(is_first_key(s6, "0.1.1.1"@, 3));
    lemma_recolor_step(s6, log[6], "0.1.1.1"@, c4, 3, 400, 400);
    let s7 = s6.remove(3).push(("0.1.1.1"@, BlockV::Leaf { shape: d1, color: c4 }));
    assert(spec_apply(s6, log[6]) == Some(s7));
    assert(s7 =~= seq![
        ("0.0"@, BlockV::Leaf { shape: a0, color: c1 }),
        ("0.1.0"@, BlockV::Leaf { shape: b0, color: c2 }),
        ("0.1.1.0"@, BlockV::Leaf { shape: d0, color: c3 }),
        ("0.1.1.1"@, BlockV::Leaf { shape: d1, color: c4 }),
    ]);

    assert(is_first_key(s7, "0.1.1.1"@, 3));
    assert(s7.remove(3) =~= seq![
        ("0.0"@, BlockV::Leaf { shape: a0, color: c1 }),
        ("0.1.0"@, BlockV::Leaf { shape: b0, color: c2 }),
        ("0.1.1.0"@, BlockV::Leaf { shape: d0, color: c3 }),
    ]);
    lemma_leaf_xcut_step(s7, log[7], "0.1.1.1"@, xd, 3, d1, c4, 400, 400);
    let s8 = leaf_xcut_result(s7, 3, "0.1.1.1"@, d1, c4, xd);
    assert(spec_apply(s7, log[7]) == Some(s8));
    assert(s8 =~= seq![
        ("0.0"@, BlockV::Leaf { shape: a0, color: c1 }),
        ("0.1.0"@, BlockV::Leaf { shape: b0, color: c2 }),
        ("0.1.1.0"@, BlockV::Leaf { shape: d0, color: c3 }),
        ("0.1.1.1.0"@, BlockV::Leaf { shape: f0, color: c4 }),
        ("0.1.1.1.1"@, BlockV::Leaf { shape: f1, color: c4 }),
    ]);

    assert(is_first_key(s8, "0.1.1.1.1"@, 4));
    lemma_recolor_step(s8, log[8], "0.1.1.1.1"@, c5, 4, 400, 400);
    let s9 = s8.remove(4).push(("0.1.1.1.1"@, BlockV::Leaf { shape: f1, color: c5 }));
    assert(spec_apply(s8, log[8]) == Some(s9));

    let l1 = log.drop_first();
    let l2 = l1.drop_first();
    let l3 = l2.drop_first();
    let l4 = l3.drop_first();
    let l5 = l4.drop_first();
    let l6 = l5.drop_first();
    let l7 = l6.drop_first();
    let l8 = l7.drop_first();
    let l9 = l8.drop_first();
    assert(l1[0] == log[1] && l2[0] == log[2] && l3[0] == log[3] && l4[0] == log[4]);
    assert(l5[0] == log[5] && l6[0] == log[6] && l7[0] == log[7] && l8[0] == log[8]);
    assert(l9.len() == 0);
    assert(replay_spec(s9, 400, 400, l9) is Some);
    assert(replay_spec(s8, 400, 400, l8) is Some);
    assert(replay_spec(s7, 400, 400, l7) is Some);
    assert(replay_spec(s6, 400, 400, l6) is Some);
    assert(replay_spec(s5, 400, 400, l5) is Some);
    assert(replay_spec(s4, 400, 400, l4) is Some);
    assert(replay_spec(s3, 400, 400, l3) is Some);
    assert(replay_spec(s2, 400, 400, l2) is Some);
    assert(replay_spec(s1, 400, 400, l1) is Some);
    assert(replay_spec(s0, 400, 400, log) is Some);
}

/// Law: every log the four-horizontal-cut engine can emit replays successfully on
/// the fresh 400 by 400 canvas: every identifier it references exists
/// when referenced, and every cut is strictly interior to its block.
pub proof fn lemma_ycut_log_replays(
    log: Seq<Operation>,
    img: Raster,
    y1: int,
    y2: int,
    y3: int,
    y4: int,
)
    requires
        ycut_coords_valid(y1, y2, y3, y4),
        ycut_log_shape(log, img, y1, y2, y3, y4),
    ensures
        replay_spec(initial_entries(400, 400), 400, 400, log) is Some,
{
    reveal_strlit("0");
    reveal_strlit(".");
    reveal_strlit("0.0");
    reveal_strlit("0.1");
    reveal_strlit("0.1.0");
    reveal_strlit("0.1.1");
    reveal_strlit("0.1.1.0");
    reveal_strlit("0.1.1.1");
    reveal_strlit("0.1.1.1.0");
    reveal_strlit("0.1.1.1.1");
    assert(child_id_chars("0"@, 0) =~= "0.0"@);
    assert(child_id_chars("0"@, 1) =~= "0.1"@);
    assert(child_id_chars("0.1"@, 0) =~= "0.1.0"@);
    assert(child_id_chars("0.1"@, 1) =~= "0.1.1"@);
    assert(child_id_chars("0.1.1"@, 0) =~= "0.1.1.0"@);
    assert(child_id_chars("0.1.1"@, 1) =~= "0.1.1.1"@);
    assert(child_id_chars("0.1.1.1"@, 0) =~= "0.1.1.1.0"@);
    assert(child_id_chars("0.1.1.1"@, 1) =~= "0.1.1.1.1"@);
    assert("0.0"@[2] == '0' && "0.1"@[2] == '1');
    assert("0.0"@ != "0.1"@);
    assert("0.1.0"@[4] == '0' && "0.1.1"@[4] == '1');
    assert("0.1.0"@ != "0.1.1"@);
    assert("0.1.1.0"@[6] == '0' && "0.1.1.1"@[6] == '1');
    assert("0.1.1.0"@ != "0.1.1.1"@);
    assert("0.1.1.1.0"@[8] == '0' && "0.1.1.1.1"@[8] == '1');
    assert("0.1.1.1.0"@ != "0.1.1.1.1"@);
    let y1i = y1 as i32;
    let y2i = y2 as i32;
    let y3i = y3 as i32;
    let y4i = y4 as i32;
    assert(y1i == y1 && y2i == y2 && y3i == y3 && y4i == y4);
    let c1 = spec_region_color(img, 0, 0, 400, y1);
    let c2 = spec_region_color(img, 0, y1, 400, y2);
    let c3 = spec_region_color(img, 0, y2, 400, y3);
    let c4 = spec_region_color(img, 0, y3, 400, y4);
    let c5 = spec_region_color(img, 0, y4, 400, 400);
    let s0 = initial_entries(400, 400);
    assert(is_first_key(s0, "0"@, 0));
    lemma_recolor_step(s0, log[0], "0"@, c1, 0, 400, 400);
    let s1 = s0.remove(0).push(("0"@, BlockV::Leaf { shape: Shape { l: 0, b: 0, r: 400, t: 400 }, color: c1 }));
    assert(spec_apply(s0, log[0]) == Some(s1));
    assert(s1 =~= seq![
        ("0"@, BlockV::Leaf { shape: Shape { l: 0, b: 0, r: 400, t: 400 }, color: c1 }),
    ]);
    assert(is_first_key(s1, "0"@, 0));
    assert(s1.remove(0) =~= Seq::<(Seq<char>, BlockV)>::empty());
    lemma_leaf_ycut_step(s1, log[1], "0"@, y1i, 0, Shape { l: 0, b: 0, r: 400, t: 400 }, c1, 400, 400);
    let s2 = leaf_ycut_result(s1, 0, "0"@, Shape { l: 0, b: 0, r: 400, t: 400 }, c1, y1i);
    assert(spec_apply(s1, log[1]) == Some(s2));
    assert(s2 =~= seq![
        ("0.0"@, BlockV::Leaf { shape: Shape { l: 0, b: 0, r: 400, t: y1i }, color: c1 }),
        ("0.1"@, BlockV::Leaf { shape: Shape { l: 0, b: y1i, r: 400, t: 400 }, color: c1 }),
    ]);
    assert(is_first_key(s2, "0.1"@, 1));
    lemma_recolor_step(s2, log[2], "0.1"@, c2, 1, 400, 400);
    let s3 = s2.remove(1).push(("0.1"@, BlockV::Leaf { shape: Shape { l: 0, b: y1i, r: 400, t: 400 }, color: c2 }));
    assert(spec_apply(s2, log[2]) == Some(s3));
    assert(s3 =~= seq![
        ("0.0"@, BlockV::Leaf { shape: Shape { l: 0, b: 0, r: 400, t: y1i }, color: c1 }),
        ("0.1"@, BlockV::Leaf { shape: Shape { l: 0, b: y1i, r: 400, t: 400 }, color: c2 }),
    ]);
    assert(is_first_key(s3, "0.1"@, 1));
    assert(s3.remove(1) =~= seq![
        ("0.0"@, BlockV::Leaf { shape: Shape { l: 0, b: 0, r: 400, t: y1i }, color: c1 }),
    ]);
    lemma_leaf_ycut_step(s3, log[3], "0.1"@, y2i, 1, Shape { l: 0, b: y1i, r: 400, t: 400 }, c2, 400, 400);
    let s4 = leaf_ycut_result(s3, 1, "0.1"@, Shape { l: 0, b: y1i, r: 400, t: 400 }, c2, y2i);
    assert(spec_apply(s3, log[3]) == Some(s4));
    assert(s4 =~= seq![
        ("0.0"@, BlockV::Leaf { shape: Shape { l: 0, b: 0, r: 400, t: y1i }, color: c1 }),
        ("0.1.0"@, BlockV::Leaf { shape: Shape { l: 0, b: y1i, r: 400, t: y2i }, color: c2 }),
        ("0.1.1"@, BlockV::Leaf { shape: Shape { l: 0, b: y2i, r: 400, t: 400 }, color: c2 }),
    ]);
    assert(is_first_key(s4, "0.1.1"@, 2));
    lemma_recolor_step(s4, log[4], "0.1.1"@, c3, 2, 400, 400);
    let s5 = s4.remove(2).push(("0.1.1"@, BlockV::Leaf { shape: Shape { l: 0, b: y2i, r: 400, t: 400 }, color: c3 }));
    assert(spec_apply(s4, log[4]) == Some(s5));
    assert(s5 =~= seq![
        ("0.0"@, BlockV::Leaf { shape: Shape { l: 0, b: 0, r: 400, t: y1i }, color: c1 }),
        ("0.1.0"@, BlockV::Leaf { shape: Shape { l: 0, b: y1i, r: 400, t: y2i }, color: c2 }),
        ("0.1.1"@, BlockV::Leaf { shape: Shape { l: 0, b: y2i, r: 400, t: 400 }, color: c3 }),
    ]);
    assert(is_first_key(s5, "0.1.1"@, 2));
    assert(s5.remove(2) =~= seq![
        ("0.0"@, BlockV::Leaf { shape: Shape { l: 0, b: 0, r: 400, t: y1i }, color: c1 }),
        ("0.1.0"@, BlockV::Leaf { shape: Shape { l: 0, b: y1i, r: 400, t: y2i }, color: c2 }),
    ]);
    lemma_leaf_ycut_step(s5, log[5], "0.1.1"@, y3i, 2, Shape { l: 0, b: y2i, r: 400, t: 400 }, c3, 400, 400);
    let s6 = leaf_ycut_result(s5, 2, "0.1.1"@, Shape { l: 0, b: y2i, r: 400, t: 400 }, c3, y3i);
    assert(spec_apply(s5, log[5]) == Some(s6));
    assert(s6 =~= seq![
        ("0.0"@, BlockV::Leaf { shape: Shape { l: 0, b: 0, r: 400, t: y1i }, color: c1 }),
        ("0.1.0"@, BlockV::Leaf { shape: Shape { l: 0, b: y1i, r: 400, t: y2i }, color: c2 }),
        ("0.1.1.0"@, BlockV::Leaf { shape: Shape { l: 0, b: y2i, r: 400, t: y3i }, color: c3 }),
        ("0.1.1.1"@, BlockV::Leaf { shape: Shape { l: 0, b: y3i, r: 400, t: 400 }, color: c3 }),
    ]);
    assert(is_first_key(s6, "0.1.1.1"@, 3));
    lemma_recolor_step(s6, log[6], "0.1.1.1"@, c4, 3, 400, 400);
    let s7 = s6.remove(3).push(("0.1.1.1"@, BlockV::Leaf { shape: Shape { l: 0, b: y3i, r: 400, t: 400 }, color: c4 }));
    assert(spec_apply(s6, log[6]) == Some(s7));
    assert(s7 =~= seq![
        ("0.0"@, BlockV::Leaf { shape: Shape { l: 0, b: 0, r: 400, t: y1i }, color: c1 }),
        ("0.1.0"@, BlockV::Leaf { shape: Shape { l: 0, b: y1i, r: 400, t: y2i }, color: c2 }),
        ("0.1.1.0"@, BlockV::Leaf { shape: Shape { l: 0, b: y2i, r: 400, t: y3i }, color: c3 }),
        ("0.1.1.1"@, BlockV::Leaf { shape: Shape { l: 0, b: y3i, r: 400, t: 400 }, color: c4 }),
    ]);
    assert(is_first_key(s7, "0.1.1.1"@, 3));
    assert(s7.remove(3) =~= seq![
        ("0.0"@, BlockV::Leaf { shape: Shape { l: 0, b: 0, r: 400, t: y1i }, color: c1 }),
        ("0.1.0"@, BlockV::Leaf { shape: Shape { l: 0, b: y1i, r: 400, t: y2i }, color: c2 }),
        ("0.1.1.0"@, BlockV::Leaf { shape: Shape { l: 0, b: y2i, r: 400, t: y3i }, color: c3 }),
    ]);
    lemma_leaf_ycut_step(s7, log[7], "0.1.1.1"@, y4i, 3, Shape { l: 0, b: y3i, r: 400, t: 400 }, c4, 400, 400);
    let s8 = leaf_ycut_result(s7, 3, "0.1.1.1"@, Shape { l: 0, b: y3i, r: 400, t: 400 }, c4, y4i);
    assert(spec_apply(s7, log[7]) == Some(s8));
    assert(s8 =~= seq![
        ("0.0"@, BlockV::Leaf { shape: Shape { l: 0, b: 0, r: 400, t: y1i }, color: c1 }),
        ("0.1.0"@, BlockV::Leaf { shape: Shape { l: 0, b: y1i, r: 400, t: y2i }, color: c2 }),
        ("0.1.1.0"@, BlockV::Leaf { shape: Shape { l: 0, b: y2i, r: 400, t: y3i }, color: c3 }),
        ("0.1.1.1.0"@, BlockV::Leaf { shape: Shape { l: 0, b: y3i, r: 400, t: y4i }, color: c4 }),
        ("0.1.1.1.1"@, BlockV::Leaf { shape: Shape { l: 0, b: y4i, r: 400, t: 400 }, color: c4 }),
    ]);
    assert(is_first_key(s8, "0.1.1.1.1"@, 4));
    lemma_recolor_step(s8, log[8], "0.1.1.1.1"@, c5, 4, 400, 400);
    let s9 = s8.remove(4).push(("0.1.1.1.1"@, BlockV::Leaf { shape: Shape { l: 0, b: y4i, r: 400, t: 400 }, color: c5 }));
    assert(spec_apply(s8, log[8]) == Some(s9));
    assert(s9 =~= seq![
        ("0.0"@, BlockV::Leaf { shape: Shape { l: 0, b: 0, r: 400, t: y1i }, color: c1 }),
        ("0.1.0"@, BlockV::Leaf { shape: Shape { l: 0, b: y1i, r: 400, t: y2i }, color: c2 }),
        ("0.1.1.0"@, BlockV::Leaf { shape: Shape { l: 0, b: y2i, r: 400, t: y3i }, color: c3 }),
        ("0.1.1.1.0"@, BlockV::Leaf { shape: Shape { l: 0, b: y3i, r: 400, t: y4i }, color: c4 }),
        ("0.1.1.1.1"@, BlockV::Leaf { shape: Shape { l: 0, b: y4i, r: 400, t: 400 }, color: c5 }),
    ]);
    let l1 = log.drop_first();
    let l2 = l1.drop_first();
    let l3 = l2.drop_first();
    let l4 = l3.drop_first();
    let l5 = l4.drop_first();
    let l6 = l5.drop_first();
    let l7 = l6.drop_first();
    let l8 = l7.drop_first();
    let l9 = l8.drop_first();
    assert(l1[0] == log[1]);
    assert(l2[0] == log[2]);
    assert(l3[0] == log[3]);
    assert(l4[0] == log[4]);
    assert(l5[0] == log[5]);
    assert(l6[0] == log[6]);
    assert(l7[0] == log[7]);
    assert(l8[0] == log[8]);
    assert(l9.len() == 0);
    assert(replay_spec(s9, 400, 400, l9) is Some);
    assert(replay_spec(s8, 400, 400, l8) is Some);
    assert(replay_spec(s7, 400, 400, l7) is Some);
    assert(replay_spec(s6, 400, 400, l6) is Some);
    assert(replay_spec(s5, 400, 400, l5) is Some);
    assert(replay_spec(s4, 400, 400, l4) is Some);
    assert(replay_spec(s3, 400, 400, l3) is Some);
    assert(replay_spec(s2, 400, 400, l2) is Some);
    assert(replay_spec(s1, 400, 400, l1) is Some);
    assert(replay_spec(s0, 400, 400, log) is Some);
}

/// Law: every log the double-point-cut engine can emit replays successfully on
/// the fresh 400 by 400 canvas: every identifier it references exists
/// when referenced, and every cut is strictly interior to its block.
#[verifier::rlimit(100)]
#[verifier::spinoff_prover]
pub proof fn lemma_rect_log_replays(
    log: Seq<Operation>,
    img: Raster,
    l: int,
    r: int,
    b: int,
    t: int,
)
    requires
        rect_coords_valid(l, r, b, t),
        rect_log_shape(log, img, l, r, b, t),
    ensures
        replay_spec(initial_entries(400, 400), 400, 400, log) is Some,
{
    reveal_strlit("0");
    reveal_strlit(".");
    reveal_strlit("0.0");
    reveal_strlit("0.1");
    reveal_strlit("0.2");
    reveal_strlit("0.3");
    reveal_strlit("0.2.0");
    reveal_strlit("0.2.1");
    reveal_strlit("0.2.2");
    reveal_strlit("0.2.3");
    assert(child_id_chars("0"@, 0) =~= "0.0"@);
    assert(child_id_chars("0"@, 1) =~= "0.1"@);
    assert(child_id_chars("0"@, 2) =~= "0.2"@);
    assert(child_id_chars("0"@, 3) =~= "0.3"@);
    assert(child_id_chars("0.2"@, 0) =~= "0.2.0"@);
    assert(child_id_chars("0.2"@, 1) =~= "0.2.1"@);
    assert(child_id_chars("0.2"@, 2) =~= "0.2.2"@);
    assert(child_id_chars("0.2"@, 3) =~= "0.2.3"@);
    assert("0.0"@[2] == '0' && "0.1"@[2] == '1');
    assert("0.0"@ != "0.1"@);
    assert("0.0"@[2] == '0' && "0.2"@[2] == '2');
    assert("0.0"@ != "0.2"@);
    assert("0.0"@[2] == '0' && "0.3"@[2] == '3');
    assert("0.0"@ != "0.3"@);
    assert("0.1"@[2] == '1' && "0.2"@[2] == '2');
    assert("0.1"@ != "0.2"@);
    assert("0.1"@[2] == '1' && "0.3"@[2] == '3');
    assert("0.1"@ != "0.3"@);
    assert("0.2"@[2] == '2' && "0.3"@[2] == '3');
    assert("0.2"@ != "0.3"@);
    assert("0.2.0"@[4] == '0' && "0.2.1"@[4] == '1');
    assert("0.2.0"@ != "0.2.1"@);
    assert("0.2.0"@[4] == '0' && "0.2.2"@[4] == '2');
    assert("0.2.0"@ != "0.2.2"@);
    assert("0.2.0"@[4] == '0' && "0.2.3"@[4] == '3');
    assert("0.2.0"@ != "0.2.3"@);
    assert("0.2.1"@[4] == '1' && "0.2.2"@[4] == '2');
    assert("0.2.1"@ != "0.2.2"@);
    assert("0.2.1"@[4] == '1' && "0.2.3"@[4] == '3');
    assert("0.2.1"@ != "0.2.3"@);
    assert("0.2.2"@[4] == '2' && "0.2.3"@[4] == '3');
    assert("0.2.2"@ != "0.2.3"@);
    let li = l as i32;
    let ri = r as i32;
    let bi = b as i32;
    let ti = t as i32;
    assert(li == l && ri == r && bi == b && ti == t);
    let c00 = spec_region_color(img, 0, 0, l, b);
    let c020 = spec_region_color(img, l, b, r, t);
    let c01 = spec_region_color(img, l, 0, 400, b);
    let c021 = spec_region_color(img, r, b, 400, t);
    let c022 = spec_region_color(img, r, t, 400, 400);
    let c023 = spec_region_color(img, l, t, r, 400);
    let c03 = spec_region_color(img, 0, b, l, 400);
    let s0 = initial_entries(400, 400);
    assert(is_first_key(s0, "0"@, 0));
    lemma_recolor_step(s0, log[0], "0"@, c00, 0, 400, 400);
    let s1 = s0.remove(0).push(("0"@, BlockV::Leaf { shape: Shape { l: 0, b: 0, r: 400, t: 400 }, color: c00 }));
    assert(spec_apply(s0, log[0]) == Some(s1));
    assert(s1 =~= seq![
        ("0"@, BlockV::Leaf { shape: Shape { l: 0, b: 0, r: 400, t: 400 }, color: c00 }),
    ]);
    assert(is_first_key(s1, "0"@, 0));
    assert(s1.remove(0) =~= Seq::<(Seq<char>, BlockV)>::empty());
    let base1 = s1.remove(0);
    assert forall|j: int| 0 <= j < 4 implies !has_key(base1, #[trigger] child_id_chars("0"@, j)) by {
        if j == 0 {
            assert(!has_key(base1, "0.0"@)) by {
                assert(forall|m: int| 0 <= m < base1.len() ==> (#[trigger] base1[m]).0 != "0.0"@);
            }
        } else if j == 1 {
            assert(!has_key(base1, "0.1"@)) by {
                assert(forall|m: int| 0 <= m < base1.len() ==> (#[trigger] base1[m]).0 != "0.1"@);
            }
        } else if j == 2 {
            assert(!has_key(base1, "0.2"@)) by {
                assert(forall|m: int| 0 <= m < base1.len() ==> (#[trigger] base1[m]).0 != "0.2"@);
            }
        } else if j == 3 {
            assert(!has_key(base1, "0.3"@)) by {
                assert(forall|m: int| 0 <= m < base1.len() ==> (#[trigger] base1[m]).0 != "0.3"@);
            }
        }
    }
    assert forall|j1: int, j2: int| 0 <= j1 < j2 < 4 implies #[trigger] child_id_chars("0"@, j1) != #[trigger] child_id_chars("0"@, j2) by {
        assert("0.0"@ != "0.1"@ && "0.0"@ != "0.2"@ && "0.0"@ != "0.3"@);
        assert("0.1"@ != "0.2"@ && "0.1"@ != "0.3"@ && "0.2"@ != "0.3"@);
    }
    lemma_leaf_pcut_step(s1, log[1], "0"@, Point { x: li, y: bi }, 0, Shape { l: 0, b: 0, r: 400, t: 400 }, c00, 400, 400);
    let s2 = leaf_pcut_result(s1, 0, "0"@, Shape { l: 0, b: 0, r: 400, t: 400 }, c00, Point { x: li, y: bi });
    assert(spec_apply(s1, log[1]) == Some(s2));
    assert(s2 =~= seq![
        ("0.0"@, BlockV::Leaf { shape: Shape { l: 0, b: 0, r: li, t: bi }, color: c00 }),
        ("0.1"@, BlockV::Leaf { shape: Shape { l: li, b: 0, r: 400, t: bi }, color: c00 }),
        ("0.2"@, BlockV::Leaf { shape: Shape { l: li, b: bi, r: 400, t: 400 }, color: c00 }),
        ("0.3"@, BlockV::Leaf { shape: Shape { l: 0, b: bi, r: li, t: 400 }, color: c00 }),
    ]);
    assert(is_first_key(s2, "0.2"@, 2));
    lemma_recolor_step(s2, log[2], "0.2"@, c020, 2, 400, 400);
    let s3 = s2.remove(2).push(("0.2"@, BlockV::Leaf { shape: Shape { l: li, b: bi, r: 400, t: 400 }, color: c020 }));
    assert(spec_apply(s2, log[2]) == Some(s3));
    assert(s3 =~= seq![
        ("0.0"@, BlockV::Leaf { shape: Shape { l: 0, b: 0, r: li, t: bi }, color: c00 }),
        ("0.1"@, BlockV::Leaf { shape: Shape { l: li, b: 0, r: 400, t: bi }, color: c00 }),
        ("0.3"@, BlockV::Leaf { shape: Shape { l: 0, b: bi, r: li, t: 400 }, color: c00 }),
        ("0.2"@, BlockV::Leaf { shape: Shape { l: li, b: bi, r: 400, t: 400 }, color: c020 }),
    ]);
    assert(is_first_key(s3, "0.2"@, 3));
    assert(s3.remove(3) =~= seq![
        ("0.0"@, BlockV::Leaf { shape: Shape { l: 0, b: 0, r: li, t: bi }, color: c00 }),
        ("0.1"@, BlockV::Leaf { shape: Shape { l: li, b: 0, r: 400, t: bi }, color: c00 }),
        ("0.3"@, BlockV::Leaf { shape: Shape { l: 0, b: bi, r: li, t: 400 }, color: c00 }),
    ]);
    let base3 = s3.remove(3);
    assert forall|j: int| 0 <= j < 4 implies !has_key(base3, #[trigger] child_id_chars("0.2"@, j)) by {
        if j == 0 {
            assert(!has_key(base3, "0.2.0"@)) by {
                assert(forall|m: int| 0 <= m < base3.len() ==> (#[trigger] base3[m]).0 != "0.2.0"@);
            }
        } else if j == 1 {
            assert(!has_key(base3, "0.2.1"@)) by {
                assert(forall|m: int| 0 <= m < base3.len() ==> (#[trigger] base3[m]).0 != "0.2.1"@);
            }
        } else if j == 2 {
            assert(!has_key(base3, "0.2.2"@)) by {
                assert(forall|m: int| 0 <= m < base3.len() ==> (#[trigger] base3[m]).0 != "0.2.2"@);
            }
        } else if j == 3 {
            assert(!has_key(base3, "0.2.3"@)) by {
                assert(forall|m: int| 0 <= m < base3.len() ==> (#[trigger] base3[m]).0 != "0.2.3"@);
            }
        }
    }
    assert forall|j1: int, j2: int| 0 <= j1 < j2 < 4 implies #[trigger] child_id_chars("0.2"@, j1) != #[trigger] child_id_chars("0.2"@, j2) by {
        assert("0.2.0"@ != "0.2.1"@ && "0.2.0"@ != "0.2.2"@ && "0.2.0"@ != "0.2.3"@);
        assert("0.2.1"@ != "0.2.2"@ && "0.2.1"@ != "0.2.3"@ && "0.2.2"@ != "0.2.3"@);
    }
    lemma_leaf_pcut_step(s3, log[3], "0.2"@, Point { x: ri, y: ti }, 3, Shape { l: li, b: bi, r: 400, t: 400 }, c020, 400, 400);
    let s4 = leaf_pcut_result(s3, 3, "0.2"@, Shape { l: li, b: bi, r: 400, t: 400 }, c020, Point { x: ri, y: ti });
    assert(spec_apply(s3, log[3]) == Some(s4));
    assert(s4 =~= seq![
        ("0.0"@, BlockV::Leaf { shape: Shape { l: 0, b: 0, r: li, t: bi }, color: c00 }),
        ("0.1"@, BlockV::Leaf { shape: Shape { l: li, b: 0, r: 400, t: bi }, color: c00 }),
        ("0.3"@, BlockV::Leaf { shape: Shape { l: 0, b: bi, r: li, t: 400 }, color: c00 }),
        ("0.2.0"@, BlockV::Leaf { shape: Shape { l: li, b: bi, r: ri, t: ti }, color: c020 }),
        ("0.2.1"@, BlockV::Leaf { shape: Shape { l: ri, b: bi, r: 400, t: ti }, color: c020 }),
        ("0.2.2"@, BlockV::Leaf { shape: Shape { l: ri, b: ti, r: 400, t: 400 }, color: c020 }),
        ("0.2.3"@, BlockV::Leaf { shape: Shape { l: li, b: ti, r: ri, t: 400 }, color: c020 }),
    ]);
    assert(is_first_key(s4, "0.1"@, 1));
    lemma_recolor_step(s4, log[4], "0.1"@, c01, 1, 400, 400);
    let s5 = s4.remove(1).push(("0.1"@, BlockV::Leaf { shape: Shape { l: li, b: 0, r: 400, t: bi }, color: c01 }));
    assert(spec_apply(s4, log[4]) == Some(s5));
    assert(s5 =~= seq![
        ("0.0"@, BlockV::Leaf { shape: Shape { l: 0, b: 0, r: li, t: bi }, color: c00 }),
        ("0.3"@, BlockV::Leaf { shape: Shape { l: 0, b: bi, r: li, t: 400 }, color: c00 }),
        ("0.2.0"@, BlockV::Leaf { shape: Shape { l: li, b: bi, r: ri, t: ti }, color: c020 }),
        ("0.2.1"@, BlockV::Leaf { shape: Shape { l: ri, b: bi, r: 400, t: ti }, color: c020 }),
        ("0.2.2"@, BlockV::Leaf { shape: Shape { l: ri, b: ti, r: 400, t: 400 }, color: c020 }),
        ("0.2.3"@, BlockV::Leaf { shape: Shape { l: li, b: ti, r: ri, t: 400 }, color: c020 }),
        ("0.1"@, BlockV::Leaf { shape: Shape { l: li, b: 0, r: 400, t: bi }, color: c01 }),
    ]);
    assert(is_first_key(s5, "0.2.1"@, 3));
    lemma_recolor_step(s5, log[5], "0.2.1"@, c021, 3, 400, 400);
    let s6 = s5.remove(3).push(("0.2.1"@, BlockV::Leaf { shape: Shape { l: ri, b: bi, r: 400, t: ti }, color: c021 }));
    assert(spec_apply(s5, log[5]) == Some(s6));
    assert(s6 =~= seq![
        ("0.0"@, BlockV::Leaf { shape: Shape { l: 0, b: 0, r: li, t: bi }, color: c00 }),
        ("0.3"@, BlockV::Leaf { shape: Shape { l: 0, b: bi, r: li, t: 400 }, color: c00 }),
        ("0.2.0"@, BlockV::Leaf { shape: Shape { l: li, b: bi, r: ri, t: ti }, color: c020 }),
        ("0.2.2"@, BlockV::Leaf { shape: Shape { l: ri, b: ti, r: 400, t: 400 }, color: c020 }),
        ("0.2.3"@, BlockV::Leaf { shape: Shape { l: li, b: ti, r: ri, t: 400 }, color: c020 }),
        ("0.1"@, BlockV::Leaf { shape: Shape { l: li, b: 0, r: 400, t: bi }, color: c01 }),
        ("0.2.1"@, BlockV::Leaf { shape: Shape { l: ri, b: bi, r: 400, t: ti }, color: c021 }),
    ]);
    assert(is_first_key(s6, "0.2.2"@, 3));
    lemma_recolor_step(s6, log[6], "0.2.2"@, c022, 3, 400, 400);
    let s7 = s6.remove(3).push(("0.2.2"@, BlockV::Leaf { shape: Shape { l: ri, b: ti, r: 400, t: 400 }, color: c022 }));
    assert(spec_apply(s6, log[6]) == Some(s7));
    assert(s7 =~= seq![
        ("0.0"@, BlockV::Leaf { shape: Shape { l: 0, b: 0, r: li, t: bi }, color: c00 }),
        ("0.3"@, BlockV::Leaf { shape: Shape { l: 0, b: bi, r: li, t: 400 }, color: c00 }),
        ("0.2.0"@, BlockV::Leaf { shape: Shape { l: li, b: bi, r: ri, t: ti }, color: c020 }),
        ("0.2.3"@, BlockV::Leaf { shape: Shape { l: li, b: ti, r: ri, t: 400 }, color: c020 }),
        ("0.1"@, BlockV::Leaf { shape: Shape { l: li, b: 0, r: 400, t: bi }, color: c01 }),
        ("0.2.1"@, BlockV::Leaf { shape: Shape { l: ri, b: bi, r: 400, t: ti }, color: c021 }),
        ("0.2.2"@, BlockV::Leaf { shape: Shape { l: ri, b: ti, r: 400, t: 400 }, color: c022 }),
    ]);
    assert(is_first_key(s7, "0.2.3"@, 3));
    lemma_recolor_step(s7, log[7], "0.2.3"@, c023, 3, 400, 400);
    let s8 = s7.remove(3).push(("0.2.3"@, BlockV::Leaf { shape: Shape { l: li, b: ti, r: ri, t: 400 }, color: c023 }));
    assert(spec_apply(s7, log[7]) == Some(s8));
    assert(s8 =~= seq![
        ("0.0"@, BlockV::Leaf { shape: Shape { l: 0, b: 0, r: li, t: bi }, color: c00 }),
        ("0.3"@, BlockV::Leaf { shape: Shape { l: 0, b: bi, r: li, t: 400 }, color: c00 }),
        ("0.2.0"@, BlockV::Leaf { shape: Shape { l: li, b: bi, r: ri, t: ti }, color: c020 }),
        ("0.1"@, BlockV::Leaf { shape: Shape { l: li, b: 0, r: 400, t: bi }, color: c01 }),
        ("0.2.1"@, BlockV::Leaf { shape: Shape { l: ri, b: bi, r: 400, t: ti }, color: c021 }),
        ("0.2.2"@, BlockV::Leaf { shape: Shape { l: ri, b: ti, r: 400, t: 400 }, color: c022 }),
        ("0.2.3"@, BlockV::Leaf { shape: Shape { l: li, b: ti, r: ri, t: 400 }, color: c023 }),
    ]);
    assert(is_first_key(s8, "0.3"@, 1));
    lemma_recolor_step(s8, log[8], "0.3"@, c03, 1, 400, 400);
    let s9 = s8.remove(1).push(("0.3"@, BlockV::Leaf { shape: Shape { l: 0, b: bi, r: li, t: 400 }, color: c03 }));
    assert(spec_apply(s8, log[8]) == Some(s9));
    assert(s9 =~= seq![
        ("0.0"@, BlockV::Leaf { shape: Shape { l: 0, b: 0, r: li, t: bi }, color: c00 }),
        ("0.2.0"@, BlockV::Leaf { shape: Shape { l: li, b: bi, r: ri, t: ti }, color: c020 }),
        ("0.1"@, BlockV::Leaf { shape: Shape { l: li, b: 0, r: 400, t: bi }, color: c01 }),
        ("0.2.1"@, BlockV::Leaf { shape: Shape { l: ri, b: bi, r: 400, t: ti }, color: c021 }),
        ("0.2.2"@, BlockV::Leaf { shape: Shape { l: ri, b: ti, r: 400, t: 400 }, color: c022 }),
        ("0.2.3"@, BlockV::Leaf { shape: Shape { l: li, b: ti, r: ri, t: 400 }, color: c023 }),
        ("0.3"@, BlockV::Leaf { shape: Shape { l: 0, b: bi, r: li, t: 400 }, color: c03 }),
    ]);
    let l1 = log.drop_first();
    let l2 = l1.drop_first();
    let l3 = l2.drop_first();
    let l4 = l3.drop_first();
    let l5 = l4.drop_first();
    let l6 = l5.drop_first();
    let l7 = l6.drop_first();
    let l8 = l7.drop_first();
    let l9 = l8.drop_first();
    assert(l1[0] == log[1]);
    assert(l2[0] == log[2]);
    assert(l3[0] == log[3]);
    assert(l4[0] == log[4]);
    assert(l5[0] == log[5]);
    assert(l6[0] == log[6]);
    assert(l7[0] == log[7]);
    assert(l8[0] == log[8]);
    assert(l9.len() == 0);
    assert(replay_spec(s9, 400, 400, l9) is Some);
    assert(replay_spec(s8, 400, 400, l8) is Some);
    assert(replay_spec(s7, 400, 400, l7) is Some);
    assert(replay_spec(s6, 400, 400, l6) is Some);
    assert(replay_spec(s5, 400, 400, l5) is Some);
    assert(replay_spec(s4, 400, 400, l4) is Some);
    assert(replay_spec(s3, 400, 400, l3) is Some);
    assert(replay_spec(s2, 400, 400, l2) is Some);
    assert(replay_spec(s1, 400, 400, l1) is Some);
    assert(replay_spec(s0, 400, 400, log) is Some);
}

/// Law: every log the three-column, two-row grid engine can emit replays successfully on
/// the fresh 400 by 400 canvas: every identifier it references exists
/// when referenced, and every cut is strictly interior to its block.
#[verifier::rlimit(100)]
#[verifier::spinoff_prover]
pub proof fn lemma_x3y2_log_replays(
    log: Seq<Operation>,
    img: Raster,
    x1: int,
    x2: int,
    y1: int,
    y2: int,
    y3: int,
)
    requires
        x3y2_coords_valid(x1, x2, y1, y2, y3),
        x3y2_log_shape(log, img, x1, x2, y1, y2, y3),
    ensures
        replay_spec(initial_entries(400, 400), 400, 400, log) is Some,
{
    reveal_strlit("0");
    reveal_strlit(".");
    reveal_strlit("0.0");
    reveal_strlit("0.1");
    reveal_strlit("0.1.0");
    reveal_strlit("0.1.1");
    reveal_strlit("0.0.0");
    reveal_strlit("0.0.1");
    reveal_strlit("0.1.0.0");
    reveal_strlit("0.1.0.1");
    reveal_strlit("0.1.1.0");
    reveal_strlit("0.1.1.1");
    assert(child_id_chars("0"@, 0) =~= "0.0"@);
    assert(child_id_chars("0"@, 1) =~= "0.1"@);
    assert(child_id_chars("0.1"@, 0) =~= "0.1.0"@);
    assert(child_id_chars("0.1"@, 1) =~= "0.1.1"@);
    assert(child_id_chars("0.0"@, 0) =~= "0.0.0"@);
    assert(child_id_chars("0.0"@, 1) =~= "0.0.1"@);
    assert(child_id_chars("0.1.0"@, 0) =~= "0.1.0.0"@);
    assert(child_id_chars("0.1.0"@, 1) =~= "0.1.0.1"@);
    assert(child_id_chars("0.1.1"@, 0) =~= "0.1.1.0"@);
    assert(child_id_chars("0.1.1"@, 1) =~= "0.1.1.1"@);
    assert("0.1.0"@[4] == '0' && "0.1.1"@[4] == '1');
    assert("0.1.0"@ != "0.1.1"@);
    assert("0.1.0"@[2] == '1' && "0.0.0"@[2] == '0');
    assert("0.1.0"@ != "0.0.0"@);
    assert("0.1.0"@[2] == '1' && "0.0.1"@[2] == '0');
    assert("0.1.0"@ != "0.0.1"@);
    assert("0.1.1"@[2] == '1' && "0.0.0"@[2] == '0');
    assert("0.1.1"@ != "0.0.0"@);
    assert("0.1.1"@[2] == '1' && "0.0.1"@[2] == '0');
    assert("0.1.1"@ != "0.0.1"@);
    assert("0.0.0"@[4] == '0' && "0.0.1"@[4] == '1');
    assert("0.0.0"@ != "0.0.1"@);
    assert("0.0"@[2] == '0' && "0.1"@[2] == '1');
    assert("0.0"@ != "0.1"@);
    assert("0.1.0.0"@[6] == '0' && "0.1.0.1"@[6] == '1');
    assert("0.1.0.0"@ != "0.1.0.1"@);
    assert("0.1.0.0"@[4] == '0' && "0.1.1.0"@[4] == '1');
    assert("0.1.0.0"@ != "0.1.1.0"@);
    assert("0.1.0.0"@[4] == '0' && "0.1.1.1"@[4] == '1');
    assert("0.1.0.0"@ != "0.1.1.1"@);
    assert("0.1.0.1"@[4] == '0' && "0.1.1.0"@[4] == '1');
    assert("0.1.0.1"@ != "0.1.1.0"@);
    assert("0.1.0.1"@[4] == '0' && "0.1.1.1"@[4] == '1');
    assert("0.1.0.1"@ != "0.1.1.1"@);
    assert("0.1.1.0"@[6] == '0' && "0.1.1.1"@[6] == '1');
    assert("0.1.1.0"@ != "0.1.1.1"@);
    let x1i = x1 as i32;
    let x2i = x2 as i32;
    let y1i = y1 as i32;
    let y2i = y2 as i32;
    let y3i = y3 as i32;
    assert(x1i == x1 && x2i == x2 && y1i == y1 && y2i == y2 && y3i == y3);
    let c000 = spec_region_color(img, 0, 0, x1, y1);
    let c0100 = spec_region_color(img, x1, 0, x2, y2);
    let c0110 = spec_region_color(img, x2, 0, 400, y3);
    let c001 = spec_region_color(img, 0, y1, x1, 400);
    let c0101 = spec_region_color(img, x1, y2, x2, 400);
    let c0111 = spec_region_color(img, x2, y3, 400, 400);
    let s0 = initial_entries(400, 400);
    assert(is_first_key(s0, "0"@, 0));
    lemma_recolor_step(s0, log[0], "0"@, c000, 0, 400, 400);
    let s1 = s0.remove(0).push(("0"@, BlockV::Leaf { shape: Shape { l: 0, b: 0, r: 400, t: 400 }, color: c000 }));
    assert(spec_apply(s0, log[0]) == Some(s1));
    assert(s1 =~= seq![
        ("0"@, BlockV::Leaf { shape: Shape { l: 0, b: 0, r: 400, t: 400 }, color: c000 }),
    ]);
    assert(is_first_key(s1, "0"@, 0));
    assert(s1.remove(0) =~= Seq::<(Seq<char>, BlockV)>::empty());
    lemma_leaf_xcut_step(s1, log[1], "0"@, x1i, 0, Shape { l: 0, b: 0, r: 400, t: 400 }, c000, 400, 400);
    let s2 = leaf_xcut_result(s1, 0, "0"@, Shape { l: 0, b: 0, r: 400, t: 400 }, c000, x1i);
    assert(spec_apply(s1, log[1]) == Some(s2));
    assert(s2 =~= seq![
        ("0.0"@, BlockV::Leaf { shape: Shape { l: 0, b: 0, r: x1i, t: 400 }, color: c000 }),
        ("0.1"@, BlockV::Leaf { shape: Shape { l: x1i, b: 0, r: 400, t: 400 }, color: c000 }),
    ]);
    assert(is_first_key(s2, "0.1"@, 1));
    lemma_recolor_step(s2, log[2], "0.1"@, c0100, 1, 400, 400);
    let s3 = s2.remove(1).push(("0.1"@, BlockV::Leaf { shape: Shape { l: x1i, b: 0, r: 400, t: 400 }, color: c0100 }));
    assert(spec_apply(s2, log[2]) == Some(s3));
    assert(s3 =~= seq![
        ("0.0"@, BlockV::Leaf { shape: Shape { l: 0, b: 0, r: x1i, t: 400 }, color: c000 }),
        ("0.1"@, BlockV::Leaf { shape: Shape { l: x1i, b: 0, r: 400, t: 400 }, color: c0100 }),
    ]);
    assert(is_first_key(s3, "0.1"@, 1));
    assert(s3.remove(1) =~= seq![
        ("0.0"@, BlockV::Leaf { shape: Shape { l: 0, b: 0, r: x1i, t: 400 }, color: c000 }),
    ]);
    lemma_leaf_xcut_step(s3, log[3], "0.1"@, x2i, 1, Shape { l: x1i, b: 0, r: 400, t: 400 }, c0100, 400, 400);
    let s4 = leaf_xcut_result(s3, 1, "0.1"@, Shape { l: x1i, b: 0, r: 400, t: 400 }, c0100, x2i);
    assert(spec_apply(s3, log[3]) == Some(s4));
    assert(s4 =~= seq![
        ("0.0"@, BlockV::Leaf { shape: Shape { l: 0, b: 0, r: x1i, t: 400 }, color: c000 }),
        ("0.1.0"@, BlockV::Leaf { shape: Shape { l: x1i, b: 0, r: x2i, t: 400 }, color: c0100 }),
        ("0.1.1"@, BlockV::Leaf { shape: Shape { l: x2i, b: 0, r: 400, t: 400 }, color: c0100 }),
    ]);
    assert(is_first_key(s4, "0.1.1"@, 2));
    lemma_recolor_step(s4, log[4], "0.1.1"@, c0110, 2, 400, 400);
    let s5 = s4.remove(2).push(("0.1.1"@, BlockV::Leaf { shape: Shape { l: x2i, b: 0, r: 400, t: 400 }, color: c0110 }));
    assert(spec_apply(s4, log[4]) == Some(s5));
    assert(s5 =~= seq![
        ("0.0"@, BlockV::Leaf { shape: Shape { l: 0, b: 0, r: x1i, t: 400 }, color: c000 }),
        ("0.1.0"@, BlockV::Leaf { shape: Shape { l: x1i, b: 0, r: x2i, t: 400 }, color: c0100 }),
        ("0.1.1"@, BlockV::Leaf { shape: Shape { l: x2i, b: 0, r: 400, t: 400 }, color: c0110 }),
    ]);
    assert(is_first_key(s5, "0.0"@, 0));
    assert(s5.remove(0) =~= seq![
        ("0.1.0"@, BlockV::Leaf { shape: Shape { l: x1i, b: 0, r: x2i, t: 400 }, color: c0100 }),
        ("0.1.1"@, BlockV::Leaf { shape: Shape { l: x2i, b: 0, r: 400, t: 400 }, color: c0110 }),
    ]);
    lemma_leaf_ycut_step(s5, log[5], "0.0"@, y1i, 0, Shape { l: 0, b: 0, r: x1i, t: 400 }, c000, 400, 400);
    let s6 = leaf_ycut_result(s5, 0, "0.0"@, Shape { l: 0, b: 0, r: x1i, t: 400 }, c000, y1i);
    assert(spec_apply(s5, log[5]) == Some(s6));
    assert(s6 =~= seq![
        ("0.1.0"@, BlockV::Leaf { shape: Shape { l: x1i, b: 0, r: x2i, t: 400 }, color: c0100 }),
        ("0.1.1"@, BlockV::Leaf { shape: Shape { l: x2i, b: 0, r: 400, t: 400 }, color: c0110 }),
        ("0.0.0"@, BlockV::Leaf { shape: Shape { l: 0, b: 0, r: x1i, t: y1i }, color: c000 }),
        ("0.0.1"@, BlockV::Leaf { shape: Shape { l: 0, b: y1i, r: x1i, t: 400 }, color: c000 }),
    ]);
    assert(is_first_key(s6, "0.0.1"@, 3));
    lemma_recolor_step(s6, log[6], "0.0.1"@, c001, 3, 400, 400);
    let s7 = s6.remove(3).push(("0.0.1"@, BlockV::Leaf { shape: Shape { l: 0, b: y1i, r: x1i, t: 400 }, color: c001 }));
    assert(spec_apply(s6, log[6]) == Some(s7));
    assert(s7 =~= seq![
        ("0.1.0"@, BlockV::Leaf { shape: Shape { l: x1i, b: 0, r: x2i, t: 400 }, color: c0100 }),
        ("0.1.1"@, BlockV::Leaf { shape: Shape { l: x2i, b: 0, r: 400, t: 400 }, color: c0110 }),
        ("0.0.0"@, BlockV::Leaf { shape: Shape { l: 0, b: 0, r: x1i, t: y1i }, color: c000 }),
        ("0.0.1"@, BlockV::Leaf { shape: Shape { l: 0, b: y1i, r: x1i, t: 400 }, color: c001 }),
    ]);
    assert(is_first_key(s7, "0.1.0"@, 0));
    assert(s7.remove(0) =~= seq![
        ("0.1.1"@, BlockV::Leaf { shape: Shape { l: x2i, b: 0, r: 400, t: 400 }, color: c0110 }),
        ("0.0.0"@, BlockV::Leaf { shape: Shape { l: 0, b: 0, r: x1i, t: y1i }, color: c000 }),
        ("0.0.1"@, BlockV::Leaf { shape: Shape { l: 0, b: y1i, r: x1i, t: 400 }, color: c001 }),
    ]);
    lemma_leaf_ycut_step(s7, log[7], "0.1.0"@, y2i, 0, Shape { l: x1i, b: 0, r: x2i, t: 400 }, c0100, 400, 400);
    let s8 = leaf_ycut_result(s7, 0, "0.1.0"@, Shape { l: x1i, b: 0, r: x2i, t: 400 }, c0100, y2i);
    assert(spec_apply(s7, log[7]) == Some(s8));
    assert(s8 =~= seq![
        ("0.1.1"@, BlockV::Leaf { shape: Shape { l: x2i, b: 0, r: 400, t: 400 }, color: c0110 }),
        ("0.0.0"@, BlockV::Leaf { shape: Shape { l: 0, b: 0, r: x1i, t: y1i }, color: c000 }),
        ("0.0.1"@, BlockV::Leaf { shape: Shape { l: 0, b: y1i, r: x1i, t: 400 }, color: c001 }),
        ("0.1.0.0"@, BlockV::Leaf { shape: Shape { l: x1i, b: 0, r: x2i, t: y2i }, color: c0100 }),
        ("0.1.0.1"@, BlockV::Leaf { shape: Shape { l: x1i, b: y2i, r: x2i, t: 400 }, color: c0100 }),
    ]);
    assert(is_first_key(s8, "0.1.0.1"@, 4));
    lemma_recolor_step(s8, log[8], "0.1.0.1"@, c0101, 4, 400, 400);
    let s9 = s8.remove(4).push(("0.1.0.1"@, BlockV::Leaf { shape: Shape { l: x1i, b: y2i, r: x2i, t: 400 }, color: c0101 }));
    assert(spec_apply(s8, log[8]) == Some(s9));
    assert(s9 =~= seq![
        ("0.1.1"@, BlockV::Leaf { shape: Shape { l: x2i, b: 0, r: 400, t: 400 }, color: c0110 }),
        ("0.0.0"@, BlockV::Leaf { shape: Shape { l: 0, b: 0, r: x1i, t: y1i }, color: c000 }),
        ("0.0.1"@, BlockV::Leaf { shape: Shape { l: 0, b: y1i, r: x1i, t: 400 }, color: c001 }),
        ("0.1.0.0"@, BlockV::Leaf { shape: Shape { l: x1i, b: 0, r: x2i, t: y2i }, color: c0100 }),
        ("0.1.0.1"@, BlockV::Leaf { shape: Shape { l: x1i, b: y2i, r: x2i, t: 400 }, color: c0101 }),
    ]);
    assert(is_first_key(s9, "0.1.1"@, 0));
    assert(s9.remove(0) =~= seq![
        ("0.0.0"@, BlockV::Leaf { shape: Shape { l: 0, b: 0, r: x1i, t: y1i }, color: c000 }),
        ("0.0.1"@, BlockV::Leaf { shape: Shape { l: 0, b: y1i, r: x1i, t: 400 }, color: c001 }),
        ("0.1.0.0"@, BlockV::Leaf { shape: Shape { l: x1i, b: 0, r: x2i, t: y2i }, color: c0100 }),
        ("0.1.0.1"@, BlockV::Leaf { shape: Shape { l: x1i, b: y2i, r: x2i, t: 400 }, color: c0101 }),
    ]);
    lemma_leaf_ycut_step(s9, log[9], "0.1.1"@, y3i, 0, Shape { l: x2i, b: 0, r: 400, t: 400 }, c0110, 400, 400);
    let s10 = leaf_ycut_result(s9, 0, "0.1.1"@, Shape { l: x2i, b: 0, r: 400, t: 400 }, c0110, y3i);
    assert(spec_apply(s9, log[9]) == Some(s10));
    assert(s10 =~= seq![
        ("0.0.0"@, BlockV::Leaf { shape: Shape { l: 0, b: 0, r: x1i, t: y1i }, color: c000 }),
        ("0.0.1"@, BlockV::Leaf { shape: Shape { l: 0, b: y1i, r: x1i, t: 400 }, color: c001 }),
        ("0.1.0.0"@, BlockV::Leaf { shape: Shape { l: x1i, b: 0, r: x2i, t: y2i }, color: c0100 }),
        ("0.1.0.1"@, BlockV::Leaf { shape: Shape { l: x1i, b: y2i, r: x2i, t: 400 }, color: c0101 }),
        ("0.1.1.0"@, BlockV::Leaf { shape: Shape { l: x2i, b: 0, r: 400, t: y3i }, color: c0110 }),
        ("0.1.1.1"@, BlockV::Leaf { shape: Shape { l: x2i, b: y3i, r: 400, t: 400 }, color: c0110 }),
    ]);
    assert(is_first_key(s10, "0.1.1.1"@, 5));
    lemma_recolor_step(s10, log[10], "0.1.1.1"@, c0111, 5, 400, 400);
    let s11 = s10.remove(5).push(("0.1.1.1"@, BlockV::Leaf { shape: Shape { l: x2i, b: y3i, r: 400, t: 400 }, color: c0111 }));
    assert(spec_apply(s10, log[10]) == Some(s11));
    assert(s11 =~= seq![
        ("0.0.0"@, BlockV::Leaf { shape: Shape { l: 0, b: 0, r: x1i, t: y1i }, color: c000 }),
        ("0.0.1"@, BlockV::Leaf { shape: Shape { l: 0, b: y1i, r: x1i, t: 400 }, color: c001 }),
        ("0.1.0.0"@, BlockV::Leaf { shape: Shape { l: x1i, b: 0, r: x2i, t: y2i }, color: c0100 }),
        ("0.1.0.1"@, BlockV::Leaf { shape: Shape { l: x1i, b: y2i, r: x2i, t: 400 }, color: c0101 }),
        ("0.1.1.0"@, BlockV::Leaf { shape: Shape { l: x2i, b: 0, r: 400, t: y3i }, color: c0110 }),
        ("0.1.1.1"@, BlockV::Leaf { shape: Shape { l: x2i, b: y3i, r: 400, t: 400 }, color: c0111 }),
    ]);
    let l1 = log.drop_first();
    let l2 = l1.drop_first();
    let l3 = l2.drop_first();
    let l4 = l3.drop_first();
    let l5 = l4.drop_first();
    let l6 = l5.drop_first();
    let l7 = l6.drop_first();
    let l8 = l7.drop_first();
    let l9 = l8.drop_first();
    let l10 = l9.drop_first();
    let l11 = l10.drop_first();
    assert(l1[0] == log[1]);
    assert(l2[0] == log[2]);
    assert(l3[0] == log[3]);
    assert(l4[0] == log[4]);
    assert(l5[0] == log[5]);
    assert(l6[0] == log[6]);
    assert(l7[0] == log[7]);
    assert(l8[0] == log[8]);
    assert(l9[0] == log[9]);
    assert(l10[0] == log[10]);
    assert(l11.len() == 0);
    assert(replay_spec(s11, 400, 400, l11) is Some);
    assert(replay_spec(s10, 400, 400, l10) is Some);
    assert(replay_spec(s9, 400, 400, l9) is Some);
    assert(replay_spec(s8, 400, 400, l8) is Some);
    assert(replay_spec(s7, 400, 400, l7) is Some);
    assert(replay_spec(s6, 400, 400, l6) is Some);
    assert(replay_spec(s5, 400, 400, l5) is Some);
    assert(replay_spec(s4, 400, 400, l4) is Some);
    assert(replay_spec(s3, 400, 400, l3) is Some);
    assert(replay_spec(s2, 400, 400, l2) is Some);
    assert(replay_spec(s1, 400, 400, l1) is Some);
    assert(replay_spec(s0, 400, 400, log) is Some);
}

/// Law: every log the three-by-three grid engine can emit replays successfully on
/// the fresh 400 by 400 canvas: every identifier it references exists
/// when referenced, and every cut is strictly interior to its block.
#[verifier::rlimit(100)]
#[verifier::spinoff_prover]
pub proof fn lemma_x3y3_log_replays(
    log: Seq<Operation>,
    img: Raster,
    x1: int,
    x2: int,
    y1: int,
    y2: int,
    y3: int,
    y4: int,
    y5: int,
    y6: int,
)
    requires
        x3y3_coords_valid(x1, x2, y1, y2, y3, y4, y5, y6),
        x3y3_log_shape(log, img, x1, x2, y1, y2, y3, y4, y5, y6),
    ensures
        replay_spec(initial_entries(400, 400), 400, 400, log) is Some,
{
    reveal_strlit("0");
    reveal_strlit(".");
    reveal_strlit("0.0");
    reveal_strlit("0.1");
    reveal_strlit("0.1.0");
    reveal_strlit("0.1.1");
    reveal_strlit("0.0.0");
    reveal_strlit("0.0.1");
    reveal_strlit("0.0.1.0");
    reveal_strlit("0.0.1.1");
    reveal_strlit("0.1.0.0");
    reveal_strlit("0.1.0.1");
    reveal_strlit("0.1.0.1.0");
    reveal_strlit("0.1.0.1.1");
    reveal_strlit("0.1.1.0");
    reveal_strlit("0.1.1.1");
    reveal_strlit("0.1.1.1.0");
    reveal_strlit("0.1.1.1.1");
    assert(child_id_chars("0"@, 0) =~= "0.0"@);
    assert(child_id_chars("0"@, 1) =~= "0.1"@);
    assert(child_id_chars("0.1"@, 0) =~= "0.1.0"@);
    assert(child_id_chars("0.1"@, 1) =~= "0.1.1"@);
    assert(child_id_chars("0.0"@, 0) =~= "0.0.0"@);
    assert(child_id_chars("0.0"@, 1) =~= "0.0.1"@);
    assert(child_id_chars("0.0.1"@, 0) =~= "0.0.1.0"@);
    assert(child_id_chars("0.0.1"@, 1) =~= "0.0.1.1"@);
    assert(child_id_chars("0.1.0"@, 0) =~= "0.1.0.0"@);
    assert(child_id_chars("0.1.0"@, 1) =~= "0.1.0.1"@);
    assert(child_id_chars("0.1.0.1"@, 0) =~= "0.1.0.1.0"@);
    assert(child_id_chars("0.1.0.1"@, 1) =~= "0.1.0.1.1"@);
    assert(child_id_chars("0.1.1"@, 0) =~= "0.1.1.0"@);
    assert(child_id_chars("0.1.1"@, 1) =~= "0.1.1.1"@);
    assert(child_id_chars("0.1.1.1"@, 0) =~= "0.1.1.1.0"@);
    assert(child_id_chars("0.1.1.1"@, 1) =~= "0.1.1.1.1"@);
    assert("0.0"@[2] == '0' && "0.1"@[2] == '1');
    assert("0.0"@ != "0.1"@);
    assert("0.1.0"@[4] == '0' && "0.1.1"@[4] == '1');
    assert("0.1.0"@ != "0.1.1"@);
    assert("0.1.0"@[2] == '1' && "0.0.0"@[2] == '0');
    assert("0.1.0"@ != "0.0.0"@);
    assert("0.1.0"@[2] == '1' && "0.0.1"@[2] == '0');
    assert("0.1.0"@ != "0.0.1"@);
    assert("0.1.1"@[2] == '1' && "0.0.0"@[2] == '0');
    assert("0.1.1"@ != "0.0.0"@);
    assert("0.1.1"@[2] == '1' && "0.0.1"@[2] == '0');
    assert("0.1.1"@ != "0.0.1"@);
    assert("0.0.0"@[4] == '0' && "0.0.1"@[4] == '1');
    assert("0.0.0"@ != "0.0.1"@);
    assert("0.0.1.0"@[6] == '0' && "0.0.1.1"@[6] == '1');
    assert("0.0.1.0"@ != "0.0.1.1"@);
    assert("0.0.1.0"@[2] == '0' && "0.1.0.0"@[2] == '1');
    assert("0.0.1.0"@ != "0.1.0.0"@);
    assert("0.0.1.0"@[2] == '0' && "0.1.0.1"@[2] == '1');
    assert("0.0.1.0"@ != "0.1.0.1"@);
    assert("0.0.1.0"@[2] == '0' && "0.1.1.0"@[2] == '1');
    assert("0.0.1.0"@ != "0.1.1.0"@);
    assert("0.0.1.0"@[2] == '0' && "0.1.1.1"@[2] == '1');
    assert("0.0.1.0"@ != "0.1.1.1"@);
    assert("0.0.1.1"@[2] == '0' && "0.1.0.0"@[2] == '1');
    assert("0.0.1.1"@ != "0.1.0.0"@);
    assert("0.0.1.1"@[2] == '0' && "0.1.0.1"@[2] == '1');
    assert("0.0.1.1"@ != "0.1.0.1"@);
    assert("0.0.1.1"@[2] == '0' && "0.1.1.0"@[2] == '1');
    assert("0.0.1.1"@ != "0.1.1.0"@);
    assert("0.0.1.1"@[2] == '0' && "0.1.1.1"@[2] == '1');
    assert("0.0.1.1"@ != "0.1.1.1"@);
    assert("0.1.0.0"@[6] == '0' && "0.1.0.1"@[6] == '1');
    assert("0.1.0.0"@ != "0.1.0.1"@);
    assert("0.1.0.0"@[4] == '0' && "0.1.1.0"@[4] == '1');
    assert("0.1.0.0"@ != "0.1.1.0"@);
    assert("0.1.0.0"@[4] == '0' && "0.1.1.1"@[4] == '1');
    assert("0.1.0.0"@ != "0.1.1.1"@);
    assert("0.1.0.1"@[4] == '0' && "0.1.1.0"@[4] == '1');
    assert("0.1.0.1"@ != "0.1.1.0"@);
    assert("0.1.0.1"@[4] == '0' && "0.1.1.1"@[4] == '1');
    assert("0.1.0.1"@ != "0.1.1.1"@);
    assert("0.1.1.0"@[6] == '0' && "0.1.1.1"@[6] == '1');
    assert("0.1.1.0"@ != "0.1.1.1"@);
    assert("0.1.0.1.0"@[8] == '0' && "0.1.0.1.1"@[8] == '1');
    assert("0.1.0.1.0"@ != "0.1.0.1.1"@);
    assert("0.1.0.1.0"@[4] == '0' && "0.1.1.1.0"@[4] == '1');
    assert("0.1.0.1.0"@ != "0.1.1.1.0"@);
    assert("0.1.0.1.0"@[4] == '0' && "0.1.1.1.1"@[4] == '1');
    assert("0.1.0.1.0"@ != "0.1.1.1.1"@);
    assert("0.1.0.1.1"@[4] == '0' && "0.1.1.1.0"@[4] == '1');
    assert("0.1.0.1.1"@ != "0.1.1.1.0"@);
    assert("0.1.0.1.1"@[4] == '0' && "0.1.1.1.1"@[4] == '1');
    assert("0.1.0.1.1"@ != "0.1.1.1.1"@);
    assert("0.1.1.1.0"@[8] == '0' && "0.1.1.1.1"@[8] == '1');
    assert("0.1.1.1.0"@ != "0.1.1.1.1"@);
    let x1i = x1 as i32;
    let x2i = x2 as i32;
    let y1i = y1 as i32;
    let y2i = y2 as i32;
    let y3i = y3 as i32;
    let y4i = y4 as i32;
    let y5i = y5 as i32;
    let y6i = y6 as i32;
    assert(x1i == x1 && x2i == x2 && y1i == y1 && y2i == y2 && y3i == y3 && y4i == y4 && y5i == y5 && y6i == y6);
    let c000 = spec_region_color(img, 0, 0, x1, y1);
    let c0100 = spec_region_color(img, x1, 0, x2, y1);
    let c0110 = spec_region_color(img, x2, 0, 400, y1);
    let c0010 = spec_region_color(img, 0, y1, x1, y2);
    let c0011 = spec_region_color(img, 0, y2, x1, 400);
    let c01010 = spec_region_color(img, x1, y1, x2, y2);
    let c01011 = spec_region_color(img, x1, y2, x2, 400);
    let c01110 = spec_region_color(img, x2, y1, 400, y2);
    let c01111 = spec_region_color(img, x2, y2, 400, 400);
    let s0 = initial_entries(400, 400);
    assert(is_first_key(s0, "0"@, 0));
    lemma_recolor_step(s0, log[0], "0"@, c000, 0, 400, 400);
    let s1 = s0.remove(0).push(("0"@, BlockV::Leaf { shape: Shape { l: 0, b: 0, r: 400, t: 400 }, color: c000 }));
    assert(spec_apply(s0, log[0]) == Some(s1));
    assert(s1 =~= seq![
        ("0"@, BlockV::Leaf { shape: Shape { l: 0, b: 0, r: 400, t: 400 }, color: c000 }),
    ]);
    assert(is_first_key(s1, "0"@, 0));
    assert(s1.remove(0) =~= Seq::<(Seq<char>, BlockV)>::empty());
    lemma_leaf_xcut_step(s1, log[1], "0"@, x1i, 0, Shape { l: 0, b: 0, r: 400, t: 400 }, c000, 400, 400);
    let s2 = leaf_xcut_result(s1, 0, "0"@, Shape { l: 0, b: 0, r: 400, t: 400 }, c000, x1i);
    assert(spec_apply(s1, log[1]) == Some(s2));
    assert(s2 =~= seq![
        ("0.0"@, BlockV::Leaf { shape: Shape { l: 0, b: 0, r: x1i, t: 400 }, color: c000 }),
        ("0.1"@, BlockV::Leaf { shape: Shape { l: x1i, b: 0, r: 400, t: 400 }, color: c000 }),
    ]);
    assert(is_first_key(s2, "0.1"@, 1));
    lemma_recolor_step(s2, log[2], "0.1"@, c0100, 1, 400, 400);
    let s3 = s2.remove(1).push(("0.1"@, BlockV::Leaf { shape: Shape { l: x1i, b: 0, r: 400, t: 400 }, color: c0100 }));
    assert(spec_apply(s2, log[2]) == Some(s3));
    assert(s3 =~= seq![
        ("0.0"@, BlockV::Leaf { shape: Shape { l: 0, b: 0, r: x1i, t: 400 }, color: c000 }),
        ("0.1"@, BlockV::Leaf { shape: Shape { l: x1i, b: 0, r: 400, t: 400 }, color: c0100 }),
    ]);
    assert(is_first_key(s3, "0.1"@, 1));
    assert(s3.remove(1) =~= seq![
        ("0.0"@, BlockV::Leaf { shape: Shape { l: 0, b: 0, r: x1i, t: 400 }, color: c000 }),
    ]);
    lemma_leaf_xcut_step(s3, log[3], "0.1"@, x2i, 1, Shape { l: x1i, b: 0, r: 400, t: 400 }, c0100, 400, 400);
    let s4 = leaf_xcut_result(s3, 1, "0.1"@, Shape { l: x1i, b: 0, r: 400, t: 400 }, c0100, x2i);
    assert(spec_apply(s3, log[3]) == Some(s4));
    assert(s4 =~= seq![
        ("0.0"@, BlockV::Leaf { shape: Shape { l: 0, b: 0, r: x1i, t: 400 }, color: c000 }),
        ("0.1.0"@, BlockV::Leaf { shape: Shape { l: x1i, b: 0, r: x2i, t: 400 }, color: c0100 }),
        ("0.1.1"@, BlockV::Leaf { shape: Shape { l: x2i, b: 0, r: 400, t: 400 }, color: c0100 }),
    ]);
    assert(is_first_key(s4, "0.1.1"@, 2));
    lemma_recolor_step(s4, log[4], "0.1.1"@, c0110, 2, 400, 400);
    let s5 = s4.remove(2).push(("0.1.1"@, BlockV::Leaf { shape: Shape { l: x2i, b: 0, r: 400, t: 400 }, color: c0110 }));
    assert(spec_apply(s4, log[4]) == Some(s5));
    assert(s5 =~= seq![
        ("0.0"@, BlockV::Leaf { shape: Shape { l: 0, b: 0, r: x1i, t: 400 }, color: c000 }),
        ("0.1.0"@, BlockV::Leaf { shape: Shape { l: x1i, b: 0, r: x2i, t: 400 }, color: c0100 }),
        ("0.1.1"@, BlockV::Leaf { shape: Shape { l: x2i, b: 0, r: 400, t: 400 }, color: c0110 }),
    ]);
    assert(is_first_key(s5, "0.0"@, 0));
    assert(s5.remove(0) =~= seq![
        ("0.1.0"@, BlockV::Leaf { shape: Shape { l: x1i, b: 0, r: x2i, t: 400 }, color: c0100 }),
        ("0.1.1"@, BlockV::Leaf { shape: Shape { l: x2i, b: 0, r: 400, t: 400 }, color: c0110 }),
    ]);
    lemma_leaf_ycut_step(s5, log[5], "0.0"@, y1i, 0, Shape { l: 0, b: 0, r: x1i, t: 400 }, c000, 400, 400);
    let s6 = leaf_ycut_result(s5, 0, "0.0"@, Shape { l: 0, b: 0, r: x1i, t: 400 }, c000, y1i);
    assert(spec_apply(s5, log[5]) == Some(s6));
    assert(s6 =~= seq![
        ("0.1.0"@, BlockV::Leaf { shape: Shape { l: x1i, b: 0, r: x2i, t: 400 }, color: c0100 }),
        ("0.1.1"@, BlockV::Leaf { shape: Shape { l: x2i, b: 0, r: 400, t: 400 }, color: c0110 }),
        ("0.0.0"@, BlockV::Leaf { shape: Shape { l: 0, b: 0, r: x1i, t: y1i }, color: c000 }),
        ("0.0.1"@, BlockV::Leaf { shape: Shape { l: 0, b: y1i, r: x1i, t: 400 }, color: c000 }),
    ]);
    assert(is_first_key(s6, "0.0.1"@, 3));
    lemma_recolor_step(s6, log[6], "0.0.1"@, c0010, 3, 400, 400);
    let s7 = s6.remove(3).push(("0.0.1"@, BlockV::Leaf { shape: Shape { l: 0, b: y1i, r: x1i, t: 400 }, color: c0010 }));
    assert(spec_apply(s6, log[6]) == Some(s7));
    assert(s7 =~= seq![
        ("0.1.0"@, BlockV::Leaf { shape: Shape { l: x1i, b: 0, r: x2i, t: 400 }, color: c0100 }),
        ("0.1.1"@, BlockV::Leaf { shape: Shape { l: x2i, b: 0, r: 400, t: 400 }, color: c0110 }),
        ("0.0.0"@, BlockV::Leaf { shape: Shape { l: 0, b: 0, r: x1i, t: y1i }, color: c000 }),
        ("0.0.1"@, BlockV::Leaf { shape: Shape { l: 0, b: y1i, r: x1i, t: 400 }, color: c0010 }),
    ]);
    assert(is_first_key(s7, "0.0.1"@, 3));
    assert(s7.remove(3) =~= seq![
        ("0.1.0"@, BlockV::Leaf { shape: Shape { l: x1i, b: 0, r: x2i, t: 400 }, color: c0100 }),
        ("0.1.1"@, BlockV::Leaf { shape: Shape { l: x2i, b: 0, r: 400, t: 400 }, color: c0110 }),
        ("0.0.0"@, BlockV::Leaf { shape: Shape { l: 0, b: 0, r: x1i, t: y1i }, color: c000 }),
    ]);
    lemma_leaf_ycut_step(s7, log[7], "0.0.1"@, y2i, 3, Shape { l: 0, b: y1i, r: x1i, t: 400 }, c0010, 400, 400);
    let s8 = leaf_ycut_result(s7, 3, "0.0.1"@, Shape { l: 0, b: y1i, r: x1i, t: 400 }, c0010, y2i);
    assert(spec_apply(s7, log[7]) == Some(s8));
    assert(s8 =~= seq![
        ("0.1.0"@, BlockV::Leaf { shape: Shape { l: x1i, b: 0, r: x2i, t: 400 }, color: c0100 }),
        ("0.1.1"@, BlockV::Leaf { shape: Shape { l: x2i, b: 0, r: 400, t: 400 }, color: c0110 }),
        ("0.0.0"@, BlockV::Leaf { shape: Shape { l: 0, b: 0, r: x1i, t: y1i }, color: c000 }),
        ("0.0.1.0"@, BlockV::Leaf { shape: Shape { l: 0, b: y1i, r: x1i, t: y2i }, color: c0010 }),
        ("0.0.1.1"@, BlockV::Leaf { shape: Shape { l: 0, b: y2i, r: x1i, t: 400 }, color: c0010 }),
    ]);
    assert(is_first_key(s8, "0.0.1.1"@, 4));
    lemma_recolor_step(s8, log[8], "0.0.1.1"@, c0011, 4, 400, 400);
    let s9 = s8.remove(4).push(("0.0.1.1"@, BlockV::Leaf { shape: Shape { l: 0, b: y2i, r: x1i, t: 400 }, color: c0011 }));
    assert(spec_apply(s8, log[8]) == Some(s9));
    assert(s9 =~= seq![
        ("0.1.0"@, BlockV::Leaf { shape: Shape { l: x1i, b: 0, r: x2i, t: 400 }, color: c0100 }),
        ("0.1.1"@, BlockV::Leaf { shape: Shape { l: x2i, b: 0, r: 400, t: 400 }, color: c0110 }),
        ("0.0.0"@, BlockV::Leaf { shape: Shape { l: 0, b: 0, r: x1i, t: y1i }, color: c000 }),
        ("0.0.1.0"@, BlockV::Leaf { shape: Shape { l: 0, b: y1i, r: x1i, t: y2i }, color: c0010 }),
        ("0.0.1.1"@, BlockV::Leaf { shape: Shape { l: 0, b: y2i, r: x1i, t: 400 }, color: c0011 }),
    ]);
    assert(is_first_key(s9, "0.1.0"@, 0));
    assert(s9.remove(0) =~= seq![
        ("0.1.1"@, BlockV::Leaf { shape: Shape { l: x2i, b: 0, r: 400, t: 400 }, color: c0110 }),
        ("0.0.0"@, BlockV::Leaf { shape: Shape { l: 0, b: 0, r: x1i, t: y1i }, color: c000 }),
        ("0.0.1.0"@, BlockV::Leaf { shape: Shape { l: 0, b: y1i, r: x1i, t: y2i }, color: c0010 }),
        ("0.0.1.1"@, BlockV::Leaf { shape: Shape { l: 0, b: y2i, r: x1i, t: 400 }, color: c0011 }),
    ]);
    lemma_leaf_ycut_step(s9, log[9], "0.1.0"@, y3i, 0, Shape { l: x1i, b: 0, r: x2i, t: 400 }, c0100, 400, 400);
    let s10 = leaf_ycut_result(s9, 0, "0.1.0"@, Shape { l: x1i, b: 0, r: x2i, t: 400 }, c0100, y3i);
    assert(spec_apply(s9, log[9]) == Some(s10));
    assert(s10 =~= seq![
        ("0.1.1"@, BlockV::Leaf { shape: Shape { l: x2i, b: 0, r: 400, t: 400 }, color: c0110 }),
        ("0.0.0"@, BlockV::Leaf { shape: Shape { l: 0, b: 0, r: x1i, t: y1i }, color: c000 }),
        ("0.0.1.0"@, BlockV::Leaf { shape: Shape { l: 0, b: y1i, r: x1i, t: y2i }, color: c0010 }),
        ("0.0.1.1"@, BlockV::Leaf { shape: Shape { l: 0, b: y2i, r: x1i, t: 400 }, color: c0011 }),
        ("0.1.0.0"@, BlockV::Leaf { shape: Shape { l: x1i, b: 0, r: x2i, t: y3i }, color: c0100 }),
        ("0.1.0.1"@, BlockV::Leaf { shape: Shape { l: x1i, b: y3i, r: x2i, t: 400 }, color: c0100 }),
    ]);
    assert(is_first_key(s10, "0.1.0.1"@, 5));
    lemma_recolor_step(s10, log[10], "0.1.0.1"@, c01010, 5, 400, 400);
    let s11 = s10.remove(5).push(("0.1.0.1"@, BlockV::Leaf { shape: Shape { l: x1i, b: y3i, r: x2i, t: 400 }, color: c01010 }));
    assert(spec_apply(s10, log[10]) == Some(s11));
    assert(s11 =~= seq![
        ("0.1.1"@, BlockV::Leaf { shape: Shape { l: x2i, b: 0, r: 400, t: 400 }, color: c0110 }),
        ("0.0.0"@, BlockV::Leaf { shape: Shape { l: 0, b: 0, r: x1i, t: y1i }, color: c000 }),
        ("0.0.1.0"@, BlockV::Leaf { shape: Shape { l: 0, b: y1i, r: x1i, t: y2i }, color: c0010 }),
        ("0.0.1.1"@, BlockV::Leaf { shape: Shape { l: 0, b: y2i, r: x1i, t: 400 }, color: c0011 }),
        ("0.1.0.0"@, BlockV::Leaf { shape: Shape { l: x1i, b: 0, r: x2i, t: y3i }, color: c0100 }),
        ("0.1.0.1"@, BlockV::Leaf { shape: Shape { l: x1i, b: y3i, r: x2i, t: 400 }, color: c01010 }),
    ]);
    assert(is_first_key(s11, "0.1.0.1"@, 5));
    assert(s11.remove(5) =~= seq![
        ("0.1.1"@, BlockV::Leaf { shape: Shape { l: x2i, b: 0, r: 400, t: 400 }, color: c0110 }),
        ("0.0.0"@, BlockV::Leaf { shape: Shape { l: 0, b: 0, r: x1i, t: y1i }, color: c000 }),
        ("0.0.1.0"@, BlockV::Leaf { shape: Shape { l: 0, b: y1i, r: x1i, t: y2i }, color: c0010 }),
        ("0.0.1.1"@, BlockV::Leaf { shape: Shape { l: 0, b: y2i, r: x1i, t: 400 }, color: c0011 }),
        ("0.1.0.0"@, BlockV::Leaf { shape: Shape { l: x1i, b: 0, r: x2i, t: y3i }, color: c0100 }),
    ]);
    lemma_leaf_ycut_step(s11, log[11], "0.1.0.1"@, y4i, 5, Shape { l: x1i, b: y3i, r: x2i, t: 400 }, c01010, 400, 400);
    let s12 = leaf_ycut_result(s11, 5, "0.1.0.1"@, Shape { l: x1i, b: y3i, r: x2i, t: 400 }, c01010, y4i);
    assert(spec_apply(s11, log[11]) == Some(s12));
    assert(s12 =~= seq![
        ("0.1.1"@, BlockV::Leaf { shape: Shape { l: x2i, b: 0, r: 400, t: 400 }, color: c0110 }),
        ("0.0.0"@, BlockV::Leaf { shape: Shape { l: 0, b: 0, r: x1i, t: y1i }, color: c000 }),
        ("0.0.1.0"@, BlockV::Leaf { shape: Shape { l: 0, b: y1i, r: x1i, t: y2i }, color: c0010 }),
        ("0.0.1.1"@, BlockV::Leaf { shape: Shape { l: 0, b: y2i, r: x1i, t: 400 }, color: c0011 }),
        ("0.1.0.0"@, BlockV::Leaf { shape: Shape { l: x1i, b: 0, r: x2i, t: y3i }, color: c0100 }),
        ("0.1.0.1.0"@, BlockV::Leaf { shape: Shape { l: x1i, b: y3i, r: x2i, t: y4i }, color: c01010 }),
        ("0.1.0.1.1"@, BlockV::Leaf { shape: Shape { l: x1i, b: y4i, r: x2i, t: 400 }, color: c01010 }),
    ]);
    assert(is_first_key(s12, "0.1.0.1.1"@, 6));
    lemma_recolor_step(s12, log[12], "0.1.0.1.1"@, c01011, 6, 400, 400);
    let s13 = s12.remove(6).push(("0.1.0.1.1"@, BlockV::Leaf { shape: Shape { l: x1i, b: y4i, r: x2i, t: 400 }, color: c01011 }));
    assert(spec_apply(s12, log[12]) == Some(s13));
    assert(s13 =~= seq![
        ("0.1.1"@, BlockV::Leaf { shape: Shape { l: x2i, b: 0, r: 400, t: 400 }, color: c0110 }),
        ("0.0.0"@, BlockV::Leaf { shape: Shape { l: 0, b: 0, r: x1i, t: y1i }, color: c000 }),
        ("0.0.1.0"@, BlockV::Leaf { shape: Shape { l: 0, b: y1i, r: x1i, t: y2i }, color: c0010 }),
        ("0.0.1.1"@, BlockV::Leaf { shape: Shape { l: 0, b: y2i, r: x1i, t: 400 }, color: c0011 }),
        ("0.1.0.0"@, BlockV::Leaf { shape: Shape { l: x1i, b: 0, r: x2i, t: y3i }, color: c0100 }),
        ("0.1.0.1.0"@, BlockV::Leaf { shape: Shape { l: x1i, b: y3i, r: x2i, t: y4i }, color: c01010 }),
        ("0.1.0.1.1"@, BlockV::Leaf { shape: Shape { l: x1i, b: y4i, r: x2i, t: 400 }, color: c01011 }),
    ]);
    assert(is_first_key(s13, "0.1.1"@, 0));
    assert(s13.remove(0) =~= seq![
        ("0.0.0"@, BlockV::Leaf { shape: Shape { l: 0, b: 0, r: x1i, t: y1i }, color: c000 }),
        ("0.0.1.0"@, BlockV::Leaf { shape: Shape { l: 0, b: y1i, r: x1i, t: y2i }, color: c0010 }),
        ("0.0.1.1"@, BlockV::Leaf { shape: Shape { l: 0, b: y2i, r: x1i, t: 400 }, color: c0011 }),
        ("0.1.0.0"@, BlockV::Leaf { shape: Shape { l: x1i, b: 0, r: x2i, t: y3i }, color: c0100 }),
        ("0.1.0.1.0"@, BlockV::Leaf { shape: Shape { l: x1i, b: y3i, r: x2i, t: y4i }, color: c01010 }),
        ("0.1.0.1.1"@, BlockV::Leaf { shape: Shape { l: x1i, b: y4i, r: x2i, t: 400 }, color: c01011 }),
    ]);
    lemma_leaf_ycut_step(s13, log[13], "0.1.1"@, y5i, 0, Shape { l: x2i, b: 0, r: 400, t: 400 }, c0110, 400, 400);
    let s14 = leaf_ycut_result(s13, 0, "0.1.1"@, Shape { l: x2i, b: 0, r: 400, t: 400 }, c0110, y5i);
    assert(spec_apply(s13, log[13]) == Some(s14));
    assert(s14 =~= seq![
        ("0.0.0"@, BlockV::Leaf { shape: Shape { l: 0, b: 0, r: x1i, t: y1i }, color: c000 }),
        ("0.0.1.0"@, BlockV::Leaf { shape: Shape { l: 0, b: y1i, r: x1i, t: y2i }, color: c0010 }),
        ("0.0.1.1"@, BlockV::Leaf { shape: Shape { l: 0, b: y2i, r: x1i, t: 400 }, color: c0011 }),
        ("0.1.0.0"@, BlockV::Leaf { shape: Shape { l: x1i, b: 0, r: x2i, t: y3i }, color: c0100 }),
        ("0.1.0.1.0"@, BlockV::Leaf { shape: Shape { l: x1i, b: y3i, r: x2i, t: y4i }, color: c01010 }),
        ("0.1.0.1.1"@, BlockV::Leaf { shape: Shape { l: x1i, b: y4i, r: x2i, t: 400 }, color: c01011 }),
        ("0.1.1.0"@, BlockV::Leaf { shape: Shape { l: x2i, b: 0, r: 400, t: y5i }, color: c0110 }),
        ("0.1.1.1"@, BlockV::Leaf { shape: Shape { l: x2i, b: y5i, r: 400, t: 400 }, color: c0110 }),
    ]);
    assert(is_first_key(s14, "0.1.1.1"@, 7));
    lemma_recolor_step(s14, log[14], "0.1.1.1"@, c01110, 7, 400, 400);
    let s15 = s14.remove(7).push(("0.1.1.1"@, BlockV::Leaf { shape: Shape { l: x2i, b: y5i, r: 400, t: 400 }, color: c01110 }));
    assert(spec_apply(s14, log[14]) == Some(s15));
    assert(s15 =~= seq![
        ("0.0.0"@, BlockV::Leaf { shape: Shape { l: 0, b: 0, r: x1i, t: y1i }, color: c000 }),
        ("0.0.1.0"@, BlockV::Leaf { shape: Shape { l: 0, b: y1i, r: x1i, t: y2i }, color: c0010 }),
        ("0.0.1.1"@, BlockV::Leaf { shape: Shape { l: 0, b: y2i, r: x1i, t: 400 }, color: c0011 }),
        ("0.1.0.0"@, BlockV::Leaf { shape: Shape { l: x1i, b: 0, r: x2i, t: y3i }, color: c0100 }),
        ("0.1.0.1.0"@, BlockV::Leaf { shape: Shape { l: x1i, b: y3i, r: x2i, t: y4i }, color: c01010 }),
        ("0.1.0.1.1"@, BlockV::Leaf { shape: Shape { l: x1i, b: y4i, r: x2i, t: 400 }, color: c01011 }),
        ("0.1.1.0"@, BlockV::Leaf { shape: Shape { l: x2i, b: 0, r: 400, t: y5i }, color: c0110 }),
        ("0.1.1.1"@, BlockV::Leaf { shape: Shape { l: x2i, b: y5i, r: 400, t: 400 }, color: c01110 }),
    ]);
    assert(is_first_key(s15, "0.1.1.1"@, 7));
    assert(s15.remove(7) =~= seq![
        ("0.0.0"@, BlockV::Leaf { shape: Shape { l: 0, b: 0, r: x1i, t: y1i }, color: c000 }),
        ("0.0.1.0"@, BlockV::Leaf { shape: Shape { l: 0, b: y1i, r: x1i, t: y2i }, color: c0010 }),
        ("0.0.1.1"@, BlockV::Leaf { shape: Shape { l: 0, b: y2i, r: x1i, t: 400 }, color: c0011 }),
        ("0.1.0.0"@, BlockV::Leaf { shape: Shape { l: x1i, b: 0, r: x2i, t: y3i }, color: c0100 }),
        ("0.1.0.1.0"@, BlockV::Leaf { shape: Shape { l: x1i, b: y3i, r: x2i, t: y4i }, color: c01010 }),
        ("0.1.0.1.1"@, BlockV::Leaf { shape: Shape { l: x1i, b: y4i, r: x2i, t: 400 }, color: c01011 }),
        ("0.1.1.0"@, BlockV::Leaf { shape: Shape { l: x2i, b: 0, r: 400, t: y5i }, color: c0110 }),
    ]);
    lemma_leaf_ycut_step(s15, log[15], "0.1.1.1"@, y6i, 7, Shape { l: x2i, b: y5i, r: 400, t: 400 }, c01110, 400, 400);
    let s16 = leaf_ycut_result(s15, 7, "0.1.1.1"@, Shape { l: x2i, b: y5i, r: 400, t: 400 }, c01110, y6i);
    assert(spec_apply(s15, log[15]) == Some(s16));
    assert(s16 =~= seq![
        ("0.0.0"@, BlockV::Leaf { shape: Shape { l: 0, b: 0, r: x1i, t: y1i }, color: c000 }),
        ("0.0.1.0"@, BlockV::Leaf { shape: Shape { l: 0, b: y1i, r: x1i, t: y2i }, color: c0010 }),
        ("0.0.1.1"@, BlockV::Leaf { shape: Shape { l: 0, b: y2i, r: x1i, t: 400 }, color: c0011 }),
        ("0.1.0.0"@, BlockV::Leaf { shape: Shape { l: x1i, b: 0, r: x2i, t: y3i }, color: c0100 }),
        ("0.1.0.1.0"@, BlockV::Leaf { shape: Shape { l: x1i, b: y3i, r: x2i, t: y4i }, color: c01010 }),
        ("0.1.0.1.1"@, BlockV::Leaf { shape: Shape { l: x1i, b: y4i, r: x2i, t: 400 }, color: c01011 }),
        ("0.1.1.0"@, BlockV::Leaf { shape: Shape { l: x2i, b: 0, r: 400, t: y5i }, color: c0110 }),
        ("0.1.1.1.0"@, BlockV::Leaf { shape: Shape { l: x2i, b: y5i, r: 400, t: y6i }, color: c01110 }),
        ("0.1.1.1.1"@, BlockV::Leaf { shape: Shape { l: x2i, b: y6i, r: 400, t: 400 }, color: c01110 }),
    ]);
    assert(is_first_key(s16, "0.1.1.1.1"@, 8));
    lemma_recolor_step(s16, log[16], "0.1.1.1.1"@, c01111, 8, 400, 400);
    let s17 = s16.remove(8).push(("0.1.1.1.1"@, BlockV::Leaf { shape: Shape { l: x2i, b: y6i, r: 400, t: 400 }, color: c01111 }));
    assert(spec_apply(s16, log[16]) == Some(s17));
    assert(s17 =~= seq![
        ("0.0.0"@, BlockV::Leaf { shape: Shape { l: 0, b: 0, r: x1i, t: y1i }, color: c000 }),
        ("0.0.1.0"@, BlockV::Leaf { shape: Shape { l: 0, b: y1i, r: x1i, t: y2i }, color: c0010 }),
        ("0.0.1.1"@, BlockV::Leaf { shape: Shape { l: 0, b: y2i, r: x1i, t: 400 }, color: c0011 }),
        ("0.1.0.0"@, BlockV::Leaf { shape: Shape { l: x1i, b: 0, r: x2i, t: y3i }, color: c0100 }),
        ("0.1.0.1.0"@, BlockV::Leaf { shape: Shape { l: x1i, b: y3i, r: x2i, t: y4i }, color: c01010 }),
        ("0.1.0.1.1"@, BlockV::Leaf { shape: Shape { l: x1i, b: y4i, r: x2i, t: 400 }, color: c01011 }),
        ("0.1.1.0"@, BlockV::Leaf { shape: Shape { l: x2i, b: 0, r: 400, t: y5i }, color: c0110 }),
        ("0.1.1.1.0"@, BlockV::Leaf { shape: Shape { l: x2i, b: y5i, r: 400, t: y6i }, color: c01110 }),
        ("0.1.1.1.1"@, BlockV::Leaf { shape: Shape { l: x2i, b: y6i, r: 400, t: 400 }, color: c01111 }),
    ]);
    let l1 = log.drop_first();
    let l2 = l1.drop_first();
    let l3 = l2.drop_first();
    let l4 = l3.drop_first();
    let l5 = l4.drop_first();
    let l6 = l5.drop_first();
    let l7 = l6.drop_first();
    let l8 = l7.drop_first();
    let l9 = l8.drop_first();
    let l10 = l9.drop_first();
    let l11 = l10.drop_first();
    let l12 = l11.drop_first();
    let l13 = l12.drop_first();
    let l14 = l13.drop_first();
    let l15 = l14.drop_first();
    let l16 = l15.drop_first();
    let l17 = l16.drop_first();
    assert(l1[0] == log[1]);
    assert(l2[0] == log[2]);
    assert(l3[0] == log[3]);
    assert(l4[0] == log[4]);
    assert(l5[0] == log[5]);
    assert(l6[0] == log[6]);
    assert(l7[0] == log[7]);
    assert(l8[0] == log[8]);
    assert(l9[0] == log[9]);
    assert(l10[0] == log[10]);
    assert(l11[0] == log[11]);
    assert(l12[0] == log[12]);
    assert(l13[0] == log[13]);
    assert(l14[0] == log[14]);
    assert(l15[0] == log[15]);
    assert(l16[0] == log[16]);
    assert(l17.len() == 0);
    assert(replay_spec(s17, 400, 400, l17) is Some);
    assert(replay_spec(s16, 400, 400, l16) is Some);
    assert(replay_spec(s15, 400, 400, l15) is Some);
    assert(replay_spec(s14, 400, 400, l14) is Some);
    assert(replay_spec(s13, 400, 400, l13) is Some);
    assert(replay_spec(s12, 400, 400, l12) is Some);
    assert(replay_spec(s11, 400, 400, l11) is Some);
    assert(replay_spec(s10, 400, 400, l10) is Some);
    assert(replay_spec(s9, 400, 400, l9) is Some);
    assert(replay_spec(s8, 400, 400, l8) is Some);
    assert(replay_spec(s7, 400, 400, l7) is Some);
    assert(replay_spec(s6, 400, 400, l6) is Some);
    assert(replay_spec(s5, 400, 400, l5) is Some);
    assert(replay_spec(s4, 400, 400, l4) is Some);
    assert(replay_spec(s3, 400, 400, l3) is Some);
    assert(replay_spec(s2, 400, 400, l2) is Some);
    assert(replay_spec(s1, 400, 400, l1) is Some);
    assert(replay_spec(s0, 400, 400, log) is Some);
}

/// Some emitted log matches the pattern for these coordinates.
pub open spec fn xcut_covered(logs: Seq<Log>, img: Raster, x1: int, x2: int, x3: int, x4: int) -> bool {
    exists|k: int| 0 <= k < logs.len() && xcut_log_shape((#[trigger] logs[k])@, img, x1, x2, x3, x4)
}

/// Appending a log keeps every coordinate tuple covered.
proof fn lemma_xcut_covered_push(logs: Seq<Log>, nl: Log, img: Raster)
    ensures
        forall|x1: int, x2: int, x3: int, x4: int|
            #[trigger] xcut_covered(logs, img, x1, x2, x3, x4) ==> xcut_covered(
                logs.push(nl),
                img,
                x1, x2, x3, x4,
            ),
{
    assert forall|x1: int, x2: int, x3: int, x4: int| #[trigger] xcut_covered(logs, img, x1, x2, x3, x4) implies xcut_covered(
        logs.push(nl),
        img,
        x1, x2, x3, x4,
    ) by {
        let k = choose|k: int| 0 <= k < logs.len() && xcut_log_shape((#[trigger] logs[k])@, img, x1, x2, x3, x4);
        assert(logs.push(nl)[k] == logs[k]);
        assert(xcut_log_shape((logs.push(nl)[k])@, img, x1, x2, x3, x4));
    }
}

/// Some emitted log matches the pattern for these coordinates.
pub open spec fn ycut_covered(logs: Seq<Log>, img: Raster, y1: int, y2: int, y3: int, y4: int) -> bool {
    exists|k: int| 0 <= k < logs.len() && ycut_log_shape((#[trigger] logs[k])@, img, y1, y2, y3, y4)
}

/// Appending a log keeps every coordinate tuple covered.
proof fn lemma_ycut_covered_push(logs: Seq<Log>, nl: Log, img: Raster)
    ensures
        forall|y1: int, y2: int, y3: int, y4: int|
            #[trigger] ycut_covered(logs, img, y1, y2, y3, y4) ==> ycut_covered(
                logs.push(nl),
                img,
                y1, y2, y3, y4,
            ),
{
    assert forall|y1: int, y2: int, y3: int, y4: int| #[trigger] ycut_covered(logs, img, y1, y2, y3, y4) implies ycut_covered(
        logs.push(nl),
        img,
        y1, y2, y3, y4,
    ) by {
        let k = choose|k: int| 0 <= k < logs.len() && ycut_log_shape((#[trigger] logs[k])@, img, y1, y2, y3, y4);
        assert(logs.push(nl)[k] == logs[k]);
        assert(ycut_log_shape((logs.push(nl)[k])@, img, y1, y2, y3, y4));
    }
}

/// Some emitted log matches the pattern for these coordinates.
pub open spec fn rect_covered(logs: Seq<Log>, img: Raster, l: int, r: int, b: int, t: int) -> bool {
    exists|k: int| 0 <= k < logs.len() && rect_log_shape((#[trigger] logs[k])@, img, l, r, b, t)
}

/// Appending a log keeps every coordinate tuple covered.
proof fn lemma_rect_covered_push(logs: Seq<Log>, nl: Log, img: Raster)
    ensures
        forall|l: int, r: int, b: int, t: int|
            #[trigger] rect_covered(logs, img, l, r, b, t) ==> rect_covered(
                logs.push(nl),
                img,
                l, r, b, t,
            ),
{
    assert forall|l: int, r: int, b: int, t: int| #[trigger] rect_covered(logs, img, l, r, b, t) implies rect_covered(
        logs.push(nl),
        img,
        l, r, b, t,
    ) by {
        let k = choose|k: int| 0 <= k < logs.len() && rect_log_shape((#[trigger] logs[k])@, img, l, r, b, t);
        assert(logs.push(nl)[k] == logs[k]);
        assert(rect_log_shape((logs.push(nl)[k])@, img, l, r, b, t));
    }
}

/// Some emitted log matches the pattern for these coordinates.
pub open spec fn x3y2_covered(logs: Seq<Log>, img: Raster, x1: int, x2: int, y1: int, y2: int, y3: int) -> bool {
    exists|k: int| 0 <= k < logs.len() && x3y2_log_shape((#[trigger] logs[k])@, img, x1, x2, y1, y2, y3)
}

/// Appending a log keeps every coordinate tuple covered.
proof fn lemma_x3y2_covered_push(logs: Seq<Log>, nl: Log, img: Raster)
    ensures
        forall|x1: int, x2: int, y1: int, y2: int, y3: int|
            #[trigger] x3y2_covered(logs, img, x1, x2, y1, y2, y3) ==> x3y2_covered(
                logs.push(nl),
                img,
                x1, x2, y1, y2, y3,
            ),
{
    assert forall|x1: int, x2: int, y1: int, y2: int, y3: int| #[trigger] x3y2_covered(logs, img, x1, x2, y1, y2, y3) implies x3y2_covered(
        logs.push(nl),
        img,
        x1, x2, y1, y2, y3,
    ) by {
        let k = choose|k: int| 0 <= k < logs.len() && x3y2_log_shape((#[trigger] logs[k])@, img, x1, x2, y1, y2, y3);
        assert(logs.push(nl)[k] == logs[k]);
        assert(x3y2_log_shape((logs.push(nl)[k])@, img, x1, x2, y1, y2, y3));
    }
}

/// Some emitted log matches the pattern for these coordinates.
pub open spec fn x3y3_covered(logs: Seq<Log>, img: Raster, x1: int, x2: int, y1: int, y2: int, y3: int, y4: int, y5: int, y6: int) -> bool {
    exists|k: int| 0 <= k < logs.len() && x3y3_log_shape((#[trigger] logs[k])@, img, x1, x2, y1, y2, y3, y4, y5, y6)
}

/// Appending a log keeps every coordinate tuple covered.
proof fn lemma_x3y3_covered_push(logs: Seq<Log>, nl: Log, img: Raster)
    ensures
        forall|x1: int, x2: int, y1: int, y2: int, y3: int, y4: int, y5: int, y6: int|
            #[trigger] x3y3_covered(logs, img, x1, x2, y1, y2, y3, y4, y5, y6) ==> x3y3_covered(
                logs.push(nl),
                img,
                x1, x2, y1, y2, y3, y4, y5, y6,
            ),
{
    assert forall|x1: int, x2: int, y1: int, y2: int, y3: int, y4: int, y5: int, y6: int| #[trigger] x3y3_covered(logs, img, x1, x2, y1, y2, y3, y4, y5, y6) implies x3y3_covered(
        logs.push(nl),
        img,
        x1, x2, y1, y2, y3, y4, y5, y6,
    ) by {
        let k = choose|k: int| 0 <= k < logs.len() && x3y3_log_shape((#[trigger] logs[k])@, img, x1, x2, y1, y2, y3, y4, y5, y6);
        assert(logs.push(nl)[k] == logs[k]);
        assert(x3y3_log_shape((logs.push(nl)[k])@, img, x1, x2, y1, y2, y3, y4, y5, y6));
    }
}

/// The score improves on the watermark when no watermark exists yet or the
/// score is strictly smaller.
pub fn improves(best: &Option<u64>, score: u64) -> (r: bool)
    ensures
        r == match *best {
            None => true,
            Some(b) => score < b,
        },
{
    match best {
        None => true,
        Some(b) => score < *b,
    }
}

} // verus!
