//! Layout of the models' output tensors: turning the flat output buffers
//! into detection rows and position/orientation fields.

use vstd::prelude::*;

verus! {

/// Number of attributes of a detection row: centre x, centre y, width,
/// height, confidence, class id.
pub const DETECTION_ATTRS: usize = 6;

/// Dimension `i` of an output shape, read as an unsigned count.
pub open spec fn dim(shape: Seq<i64>, i: int) -> usize {
    shape[i] as usize
}

/// Whether the output holds detection rows of at least six attributes:
/// a three-dimensional shape `[batch, detections, attributes]`.
pub open spec fn has_rows(shape: Seq<i64>) -> bool {
    shape.len() == 3 && dim(shape, 2) >= DETECTION_ATTRS
}

/// The first six attributes of every detection row of a YOLO output of shape
/// `[1, detections, attributes]`, read from the flat buffer `data`. Outputs of
/// another rank, or with fewer than six attributes, give no rows.
pub fn yolo_detection_rows<T: Copy>(shape: &[i64], data: &[T]) -> (rows: Vec<[T; 6]>)
    requires
        has_rows(shape@) && dim(shape@, 1) > 0 ==> (dim(shape@, 1) - 1) * dim(shape@, 2)
            + DETECTION_ATTRS <= data@.len(),
    ensures
        !has_rows(shape@) ==> rows@.len() == 0,
        has_rows(shape@) ==> rows@.len() == dim(shape@, 1),
        has_rows(shape@) ==> forall|i: int, c: int|
            0 <= i < rows@.len() && 0 <= c < DETECTION_ATTRS ==> #[trigger] rows@[i]@[c]
                == data@[i * dim(shape@, 2) + c],
{
    let mut rows: Vec<[T; 6]> = Vec::new();
    if shape.len() != 3 {
        return rows;
    }
    let num_dets = shape[1] as usize;
    let num_attrs = shape[2] as usize;
    if num_attrs < DETECTION_ATTRS {
        return rows;
    }
    let mut i: usize = 0;
    while i < num_dets
        invariant
            has_rows(shape@),
            num_dets == dim(shape@, 1),
            num_attrs == dim(shape@, 2),
            num_dets > 0 ==> (num_dets - 1) * num_attrs + DETECTION_ATTRS <= data@.len(),
            i <= num_dets,
            rows@.len() == i,
            forall|r: int, c: int|
                0 <= r < i && 0 <= c < DETECTION_ATTRS ==> #[trigger] rows@[r]@[c] == data@[r
                    * num_attrs + c],
        decreases num_dets - i,
    {
        assert(i * num_attrs <= (num_dets - 1) * num_attrs) by (nonlinear_arith)
            requires
                i < num_dets,
        ;
        assert(data@.len() == data.len());
        let base = i * num_attrs;
        let row = [
            data[base],
            data[base + 1],
            data[base + 2],
            data[base + 3],
            data[base + 4],
            data[base + 5],
        ];
        rows.push(row);
        proof {
            assert forall|r: int, c: int|
                0 <= r < i + 1 && 0 <= c < DETECTION_ATTRS implies #[trigger] rows@[r]@[c]
                == data@[r * num_attrs + c] by {
                if r == i {
                    assert(rows@[r] == row);
                }
            }
        }
        i = i + 1;
    }
    rows
}

/// The position `[x, y, z]` and orientation `[yaw_x, yaw_y, pitch_x,
/// pitch_y]` read from the navigation model's three outputs: the planar
/// position, the height and the angle components.
pub fn repvit_fields<T: Copy>(position: &[T], height: &[T], angles: &[T]) -> (r: ([T; 3], [T; 4]))
    requires
        position@.len() >= 2,
        height@.len() >= 1,
        angles@.len() >= 4,
    ensures
        r.0@ == seq![position@[0], position@[1], height@[0]],
        r.1@ == seq![angles@[0], angles@[1], angles@[2], angles@[3]],
{
    let pos = [position[0], position[1], height[0]];
    let ang = [angles[0], angles[1], angles[2], angles[3]];
    proof {
        assert(pos@ =~= seq![position@[0], position@[1], height@[0]]);
        assert(ang@ =~= seq![angles@[0], angles@[1], angles@[2], angles@[3]]);
    }
    (pos, ang)
}

} // verus!
