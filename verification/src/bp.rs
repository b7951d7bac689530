//! Forward calculation: growth points (BP) to the stats the game shows.
//!
//! The five BP axes are always ordered `[HP, ATK, DEF, AGI, MP]`.
//! BP is held in thousandths of a point; a raw stat is a weighted sum of the
//! five axes in ten-thousandths of a stat point, so every step is exact.
use vstd::prelude::*;
use crate::arith::div_floor;

verus! {

/// Number of BP axes.
pub const AXES: usize = 5;

/// Number of displayed stats: hp, mp, atk, def, agi, wis, res.
pub const STATS: usize = 7;

/// Base value of hp, mp, atk, def and agi.
pub const PROP_BASE: i64 = 20;

/// Base value of wis and res.
pub const PROP_BASE_WIS_RES: i64 = 100;

/// Bound on a BP component (thousandths) under which every sum stays exact.
pub const BP_LIMIT: i128 = 0x1_0000_0000_0000_0000_0000_0000;

/// The stat matrix, times ten, row = stat `[hp, mp, atk, def, agi, wis, res]`,
/// column = BP axis `[HP, ATK, DEF, AGI, MP]`.
pub open spec fn m10(s: int, j: int) -> int {
    let row: Seq<int> = if s == 0 {
        seq![80, 20, 30, 30, 10]
    } else if s == 1 {
        seq![10, 20, 20, 20, 100]
    } else if s == 2 {
        seq![2, 27, 3, 3, 2]
    } else if s == 3 {
        seq![2, 3, 30, 3, 2]
    } else if s == 4 {
        seq![1, 2, 2, 20, 1]
    } else if s == 5 {
        seq![-3, -1, 2, -1, 8]
    } else {
        seq![8, -1, -1, 2, -3]
    };
    row[j]
}

/// Raw stat `s` of a BP vector, in ten-thousandths of a stat point.
pub open spec fn spec_raw(v: [i128; 5], s: int) -> int {
    m10(s, 0) * v[0] + m10(s, 1) * v[1] + m10(s, 2) * v[2] + m10(s, 3) * v[3] + m10(s, 4) * v[4]
}

pub open spec fn clamp_i64(x: int) -> int {
    if x < i64::MIN {
        i64::MIN as int
    } else if x > i64::MAX {
        i64::MAX as int
    } else {
        x
    }
}

/// Displayed stat for a raw value: floor to whole points, add the base,
/// saturating at the ends of `i64`.
pub open spec fn spec_stat(raw: int, base: int) -> int {
    clamp_i64(raw / 10000 + base)
}

pub open spec fn stat_base(s: int) -> int {
    if s < 5 { PROP_BASE as int } else { PROP_BASE_WIS_RES as int }
}

pub open spec fn bp_in_range(v: [i128; 5]) -> bool {
    forall|j: int| 0 <= j < 5 ==> -BP_LIMIT <= #[trigger] v[j] <= BP_LIMIT
}

/// Five BP values in thousandths of a point.
#[derive(Debug, Clone, Copy, PartialEq, Eq, Default)]
pub struct Bp {
    pub hp: i128,
    pub atk: i128,
    pub def: i128,
    pub agi: i128,
    pub mp: i128,
}

/// The seven displayed stats.
#[derive(Debug, Clone, Copy, PartialEq, Eq, Default)]
pub struct Stat {
    pub hp: i64,
    pub mp: i64,
    pub atk: i64,
    pub def: i64,
    pub agi: i64,
    pub wis: i64,
    pub res: i64,
}

impl Bp {
    pub open spec fn arr(self) -> [i128; 5] {
        [self.hp, self.atk, self.def, self.agi, self.mp]
    }

    pub open spec fn in_range(self) -> bool {
        bp_in_range(self.arr())
    }

    /// The sum of a stat row for this BP, as the displayed stat.
    pub open spec fn spec_stat_of(self, s: int) -> int {
        spec_stat(spec_raw(self.arr(), s), stat_base(s))
    }

    /// The seven displayed stats of this BP.
    pub open spec fn spec_calc(self) -> Stat {
        Stat {
            hp: self.spec_stat_of(0) as i64,
            mp: self.spec_stat_of(1) as i64,
            atk: self.spec_stat_of(2) as i64,
            def: self.spec_stat_of(3) as i64,
            agi: self.spec_stat_of(4) as i64,
            wis: self.spec_stat_of(5) as i64,
            res: self.spec_stat_of(6) as i64,
        }
    }

    pub fn new(hp: i128, atk: i128, def: i128, agi: i128, mp: i128) -> (b: Self)
        ensures
            b.arr() == [hp, atk, def, agi, mp],
    {
        Bp { hp, atk, def, agi, mp }
    }

    /// Axis order `[HP, ATK, DEF, AGI, MP]`.
    pub fn to_array(self) -> (a: [i128; 5])
        ensures
            a == self.arr(),
    {
        [self.hp, self.atk, self.def, self.agi, self.mp]
    }

    pub fn from_array(a: [i128; 5]) -> (b: Self)
        ensures
            b.arr() == a,
    {
        Bp { hp: a[0], atk: a[1], def: a[2], agi: a[3], mp: a[4] }
    }

    /// Total BP, in thousandths.
    pub fn sum(self) -> (s: i128)
        requires
            self.in_range(),
        ensures
            s == self.hp + self.atk + self.def + self.agi + self.mp,
    {
        self.hp + self.atk + self.def + self.agi + self.mp
    }

    /// Per axis `self <= other`.
    pub fn contained_in(self, other: Bp) -> (r: bool)
        ensures
            r == (forall|j: int| 0 <= j < 5 ==> self.arr()[j] <= other.arr()[j]),
    {
        let r = self.hp <= other.hp && self.atk <= other.atk && self.def <= other.def
            && self.agi <= other.agi && self.mp <= other.mp;
        proof {
            let a = self.arr();
            let b = other.arr();
            if r {
                assert forall|j: int| 0 <= j < 5 implies a[j] <= b[j] by {
                    if j == 0 {} else if j == 1 {} else if j == 2 {} else if j == 3 {} else {}
                }
            } else {
                assert(!(a[0] <= b[0]) || !(a[1] <= b[1]) || !(a[2] <= b[2]) || !(a[3] <= b[3])
                    || !(a[4] <= b[4]));
            }
        }
        r
    }

    /// Forward calculation: BP to the seven displayed stats.
    pub fn calc_real_num(self) -> (st: Stat)
        requires
            self.in_range(),
        ensures
            st == self.spec_calc(),
            st.arr() == seq![
                self.spec_stat_of(0),
                self.spec_stat_of(1),
                self.spec_stat_of(2),
                self.spec_stat_of(3),
                self.spec_stat_of(4),
                self.spec_stat_of(5),
                self.spec_stat_of(6),
            ],
    {
        let v = self.to_array();
        Stat {
            hp: stat_from_raw(raw_stat(&v, 0), PROP_BASE),
            mp: stat_from_raw(raw_stat(&v, 1), PROP_BASE),
            atk: stat_from_raw(raw_stat(&v, 2), PROP_BASE),
            def: stat_from_raw(raw_stat(&v, 3), PROP_BASE),
            agi: stat_from_raw(raw_stat(&v, 4), PROP_BASE),
            wis: stat_from_raw(raw_stat(&v, 5), PROP_BASE_WIS_RES),
            res: stat_from_raw(raw_stat(&v, 6), PROP_BASE_WIS_RES),
        }
    }
}

impl Stat {
    pub open spec fn arr(self) -> Seq<int> {
        seq![
            self.hp as int,
            self.mp as int,
            self.atk as int,
            self.def as int,
            self.agi as int,
            self.wis as int,
            self.res as int,
        ]
    }

    /// Display order: hp mp atk def agi wis res.
    pub fn to_array(self) -> (a: [i64; 7])
        ensures
            forall|i: int| 0 <= i < 7 ==> a[i] as int == #[trigger] self.arr()[i],
    {
        [self.hp, self.mp, self.atk, self.def, self.agi, self.wis, self.res]
    }
}

/// Raw stat `s` (0..7) of a BP vector, in ten-thousandths.
pub fn raw_stat(v: &[i128; 5], s: usize) -> (r: i128)
    requires
        s < 7,
        bp_in_range(*v),
    ensures
        r == spec_raw(*v, s as int),
        -512 * BP_LIMIT <= r <= 512 * BP_LIMIT,
{
    let a = v[0];
    let b = v[1];
    let c = v[2];
    let d = v[3];
    let e = v[4];
    assert(-BP_LIMIT <= a <= BP_LIMIT && -BP_LIMIT <= b <= BP_LIMIT && -BP_LIMIT <= c <= BP_LIMIT
        && -BP_LIMIT <= d <= BP_LIMIT && -BP_LIMIT <= e <= BP_LIMIT);
    if s == 0 {
        80 * a + 20 * b + 30 * c + 30 * d + 10 * e
    } else if s == 1 {
        10 * a + 20 * b + 20 * c + 20 * d + 100 * e
    } else if s == 2 {
        2 * a + 27 * b + 3 * c + 3 * d + 2 * e
    } else if s == 3 {
        2 * a + 3 * b + 30 * c + 3 * d + 2 * e
    } else if s == 4 {
        1 * a + 2 * b + 2 * c + 20 * d + 1 * e
    } else if s == 5 {
        8 * e + 2 * c - 3 * a - b - d
    } else {
        8 * a + 2 * d - b - c - 3 * e
    }
}

/// Displayed stat from a raw value and its base.
pub fn stat_from_raw(raw: i128, base: i64) -> (st: i64)
    requires
        -512 * BP_LIMIT <= raw <= 512 * BP_LIMIT,
    ensures
        st == spec_stat(raw as int, base as int),
{
    let q = div_floor(raw, 10000);
    let x: i128 = q + base as i128;
    if x < i64::MIN as i128 {
        i64::MIN
    } else if x > i64::MAX as i128 {
        i64::MAX
    } else {
        x as i64
    }
}

} // verus!
