//! The playback gain, and the chain that a source runs through.
//!
//! A gain is carried as the bit pattern of a binary32 number. What is decided
//! about gains is decided on the patterns; arithmetic on the numbers they stand
//! for is asked of the caller.

use vstd::prelude::*;

verus! {

/// The bit pattern of positive infinity. The patterns up to this one are those
/// of the numbers from positive zero up, in their order.
pub const INFINITY: u32 = 0x7f80_0000;

/// The gain, with positive zero in place of a negative number or no number.
pub open spec fn nonnegative(gain: u32) -> u32 {
    if gain <= INFINITY {
        gain
    } else {
        0
    }
}

/// The gains that were asked for, one in each cell.
pub struct Cells {
    pub gains: Vec<u32>,
}

impl View for Cells {
    type V = Seq<u32>;

    open spec fn view(&self) -> Seq<u32> {
        self.gains@
    }
}

impl Cells {
    /// No cells.
    pub fn new() -> (r: Cells)
        ensures
            r@ == Seq::<u32>::empty(),
    {
        Cells { gains: Vec::new() }
    }
}

/// The gain that playback is asked to have: a cell, which all copies of the
/// volume share.
#[derive(Clone, Copy, Debug, PartialEq, Eq, Structural)]
pub struct Volume {
    pub cell: usize,
}

impl Volume {
    /// The volume's cell is one of `gains`.
    pub open spec fn within(self, gains: Seq<u32>) -> bool {
        self.cell < gains.len()
    }

    /// The gain in the volume's cell.
    pub open spec fn gain(self, gains: Seq<u32>) -> u32 {
        gains[self.cell as int]
    }

    /// The cells once `gain` was put into the volume's own.
    pub open spec fn stored(self, gains: Seq<u32>, gain: u32) -> Seq<u32> {
        gains.update(self.cell as int, gain)
    }

    /// A volume of `gain`, in a cell of its own.
    pub fn new(cells: &mut Cells, gain: u32) -> (r: Volume)
        ensures
            final(cells)@ == old(cells)@.push(gain),
            r.cell == old(cells)@.len(),
            r.within(final(cells)@),
    {
        let cell: usize = cells.gains.len();
        cells.gains.push(gain);
        Volume { cell }
    }

    /// Asks for `gain` from now on.
    pub fn set(&self, cells: &mut Cells, gain: u32)
        requires
            self.within(old(cells)@),
        ensures
            final(cells)@ == self.stored(old(cells)@, gain),
            final(cells)@ == old(cells)@.update(self.cell as int, gain),
    {
        cells.gains.set(self.cell, gain);
    }

    /// The gain that was last asked for.
    pub fn get(&self, cells: &Cells) -> (r: u32)
        requires
            self.within(cells@),
        ensures
            r == self.gain(cells@),
            r == cells@[self.cell as int],
    {
        cells.gains[self.cell]
    }

    /// The gain that samples are to be scaled by: the larger of the one asked
    /// for and zero.
    pub fn requested(&self, cells: &Cells) -> (r: u32)
        requires
            self.within(cells@),
        ensures
            r == nonnegative(self.gain(cells@)),
            r == if cells@[self.cell as int] <= 0x7f80_0000 {
                cells@[self.cell as int]
            } else {
                0
            },
    {
        let gain: u32 = self.get(cells);
        if gain <= INFINITY {
            gain
        } else {
            0
        }
    }
}

/// What sits between the queue and the device: the equalizer, then the volume
/// ramp, with the spectrum tap listening at the end.
pub struct Chain<E, S> {
    pub volume: Volume,
    pub equalizer: E,
    pub spectrum: S,
}

/// The gain that samples are scaled by is a number from zero up: one that was
/// asked for, or zero where the one asked for is none such.
pub proof fn law_requested_from_zero_up(gain: u32)
    ensures
        nonnegative(gain) <= INFINITY,
        gain <= INFINITY ==> nonnegative(gain) == gain,
        gain > INFINITY ==> nonnegative(gain) == 0,
        nonnegative(nonnegative(gain)) == nonnegative(gain),
{
}

/// What one copy of a volume is set to, as it is and not as samples are scaled,
/// every copy has, and a volume with another cell keeps its gain.
pub proof fn law_copies_share(gains: Seq<u32>, volume: Volume, other: Volume, gain: u32)
    requires
        volume.within(gains),
        other.within(gains),
    ensures
        volume.gain(volume.stored(gains, gain)) == gain,
        other.gain(volume.stored(gains, gain)) == if other == volume {
            gain
        } else {
            other.gain(gains)
        },
        other.within(volume.stored(gains, gain)),
{
}

/// A new volume has a cell of its own: no volume that was there before shares
/// it, and all of those keep their gains.
pub proof fn law_new_volume_is_apart(gains: Seq<u32>, volume: Volume, other: Volume, gain: u32)
    requires
        volume.cell == gains.len(),
        other.within(gains),
    ensures
        volume != other,
        volume.gain(gains.push(gain)) == gain,
        other.gain(gains.push(gain)) == other.gain(gains),
{
}

/// The gain that samples are scaled by, read off the parts of a binary32 number:
/// the sign, eight bits of exponent and 23 bits of fraction. A gain is taken as
/// it is, infinity included, unless its sign is minus or it is no number, which
/// is what an exponent of all ones with a fraction means. Zero stands in then.
pub proof fn law_requested_by_parts(gain: u32)
    ensures
        ({
            let minus = gain / 0x8000_0000 == 1;
            let exponent = (gain / 0x80_0000) % 0x100;
            let fraction = gain % 0x80_0000;
            let no_number = exponent == 0xff && fraction != 0;
            nonnegative(gain) == if minus || no_number {
                0
            } else {
                gain
            }
        }),
{
}

/// Of two gains that are numbers with a plus sign, the larger is the larger one
/// to scale by as well, and no gain is scaled by less than zero.
pub proof fn law_requested_keeps_order(small: u32, large: u32)
    requires
        small <= large <= 0x7f80_0000,
    ensures
        nonnegative(small) <= nonnegative(large),
        small < large ==> nonnegative(small) < nonnegative(large),
{
}

/// A gain that is stored is in the volume's cell as it is, every other cell has
/// what it had, and what is read is what the cell has.
pub proof fn law_one_cell_is_stored(gains: Seq<u32>, volume: Volume, gain: u32, cell: usize)
    requires
        volume.cell < gains.len(),
        cell < gains.len(),
    ensures
        volume.stored(gains, gain).len() == gains.len(),
        volume.stored(gains, gain)[cell as int] == if cell == volume.cell {
            gain
        } else {
            gains[cell as int]
        },
        volume.gain(gains) == gains[volume.cell as int],
        volume.within(gains),
{
}

} // verus!
