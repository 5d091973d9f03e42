//! Presentation-only rules: interface sounds and clothing texture rows.

use vstd::prelude::*;

verus! {

/// This state deliberately does not share the simulation seed. UI pitch is
/// presentation-only variation, never an input to the deterministic world.
#[derive(Clone, Copy, Debug, Eq, PartialEq, Structural)]
pub struct UiAudioVariation(pub u64);

/// The variation after one sound.
pub open spec fn varied(state: u64) -> u64 {
    ((state * 6364136223846793005 % 0x1_0000_0000_0000_0000 + 1) % 0x1_0000_0000_0000_0000) as u64
}

/// The steps that a pitch is divided into.
pub const PITCH_STEPS: u32 = 16_777_216;

impl UiAudioVariation {
    /// Moves on to the next variation and gives its pitch step.
    pub fn next_step(&mut self) -> (r: u32)
        ensures
            final(self).0 == varied(old(self).0),
            r == varied(old(self).0) >> 40,
            r < PITCH_STEPS,
    {
        self.0 = self.0.wrapping_mul(6364136223846793005).wrapping_add(1);
        let state: u64 = self.0;
        assert(state >> 40 < 16_777_216) by (bit_vector);
        (state >> 40) as u32
    }

    /// The sound of the next click.
    #[must_use]
    pub fn click_sound(&self) -> (r: &'static str)
        ensures
            r@ == if self.0 % 2 == 0 {
                "client/audio/click-a.ogg"@
            } else {
                "client/audio/tap-a.ogg"@
            },
    {
        if self.0 % 2 == 0 {
            "client/audio/click-a.ogg"
        } else {
            "client/audio/tap-a.ogg"
        }
    }
}

/// Frames in a row of the character atlas.
pub const CHARACTER_COLUMNS: u32 = 8;

/// Rows of the character atlas.
pub const CHARACTER_ROWS: u32 = 12;

/// The first clothing frame of the character atlas.
pub const CLOTHING_FIRST_INDEX: u32 = 32;

/// Whether pixel row `y` of a character atlas belongs to its clothing frames.
pub open spec fn is_clothing_row(height: u32, y: int) -> bool {
    let row = height as int / CHARACTER_ROWS as int;
    let first = CLOTHING_FIRST_INDEX as int / CHARACTER_COLUMNS as int * row;
    first <= y < first + row
}

/// The pixel rows of an atlas that hold clothing: the first, and the one
/// behind the last.
#[must_use]
pub fn clothing_rows(height: u32) -> (r: (u32, u32))
    ensures
        forall|y: int| (r.0 <= y < r.1) == is_clothing_row(height, y),
        r.0 <= r.1 <= height,
{
    let row: u32 = height / CHARACTER_ROWS;
    let above: u32 = CLOTHING_FIRST_INDEX / CHARACTER_COLUMNS;
    assert(above == 4);
    assert(above * row == 4 * row) by (nonlinear_arith)
        requires
            above == 4,
    ;
    let first: u32 = above * row;
    (first, first + row)
}

/// Makes every pixel outside the clothing rows of an RGBA atlas transparent,
/// which prevents the derived texture from ever being used to recolour hair or
/// skin.
pub fn blank_outside_clothing(data: &mut Vec<u8>, width: u32, height: u32)
    requires
        width * height * 4 <= old(data)@.len(),
    ensures
        final(data)@.len() == old(data)@.len(),
        forall|i: int|
            0 <= i < old(data)@.len() ==> #[trigger] final(data)@[i] == if i < width * height * 4
                && !is_clothing_row(height, i / (width as int * 4)) {
                0
            } else {
                old(data)@[i]
            },
{
    let (first, end): (u32, u32) = clothing_rows(height);
    let ghost line = width as int * 4;
    let ghost area = width * height * 4;
    let ghost before = data@;
    assert(data.len() <= usize::MAX);
    assert(width * height <= u64::MAX) by (nonlinear_arith)
        requires
            width <= u32::MAX,
            height <= u32::MAX,
    ;
    let limit: u64 = width as u64 * height as u64 * 4;
    let bytes: u64 = width as u64 * 4;
    let mut i: usize = 0;
    while (i as u64) < limit
        invariant
            i <= limit,
            limit == area,
            area == width * height * 4,
            area <= data@.len(),
            data@.len() == before.len(),
            line == width as int * 4,
            bytes == line,
            forall|y: int| (first <= y < end) == is_clothing_row(height, y),
            forall|j: int|
                0 <= j < i ==> #[trigger] data@[j] == if is_clothing_row(height, j / line) {
                    before[j]
                } else {
                    0
                },
            forall|j: int| i <= j < data@.len() ==> #[trigger] data@[j] == before[j],
        decreases limit - i,
    {
        proof {
            if line == 0 {
                assert(width * height * 4 == 0) by (nonlinear_arith)
                    requires
                        width == 0,
                ;
            }
        }
        let y: u64 = i as u64 / bytes;
        assert(y == i as int / line);
        if y < first as u64 || y >= end as u64 {
            data.set(i, 0);
        }
        assert(i < data.len());
        i = i + 1;
    }
}

} // verus!
