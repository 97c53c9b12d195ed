//! Geometry planning for the database file: how a capacity is split into a
//! page-aligned superheader (database header plus region tracker) followed by
//! regions, each holding an allocator-header section and usable data pages.

use vstd::arithmetic::div_mod::{
    lemma_div_by_self, lemma_div_is_ordered, lemma_div_is_ordered_by_denominator,
    lemma_div_multiples_vanish, lemma_div_nonincreasing, lemma_div_plus_one, lemma_div_pos_is_pos,
    lemma_fundamental_div_mod, lemma_fundamental_div_mod_converse,
    lemma_mod_division_less_than_divisor, lemma_mod_multiples_basic,
};
use vstd::arithmetic::mul::{
    lemma_mul_inequality, lemma_mul_is_commutative, lemma_mul_nonnegative, lemma_mul_upper_bound,
};
use vstd::pervasive::unreached;
use vstd::prelude::*;

use crate::error::Error;

verus! {

/// Size in bytes of the fixed database header at the start of the file.
pub const DB_HEADER_SIZE: usize = 64;

/// No region may be created with fewer usable data pages than this.
pub const MIN_USABLE_PAGES: usize = 10;

/// Upper bound on the page-allocation order the region allocator supports;
/// the region tracker is sized for `MAX_MAX_PAGE_ORDER + 1` orders.
pub const MAX_MAX_PAGE_ORDER: usize = 20;

/// Bytes the region allocator's header needs to track `page_capacity` pages:
/// a fixed preamble plus two bitmaps grouped into 64-bit words.
pub open spec fn spec_required_space(page_capacity: int) -> int {
    16 + 16 * ((page_capacity + 63) / 64)
}

/// Bytes the region tracker needs to record `num_regions` regions across
/// `orders` allocation orders: a fixed preamble plus one 64-bit-word-grouped
/// bitmap per order.
pub open spec fn spec_required_bytes(num_regions: int, orders: int) -> int {
    8 + orders * 8 * ((num_regions + 63) / 64)
}

/// Size in bytes of the region allocator's header for a region able to
/// address `page_capacity` pages.
pub fn required_space(page_capacity: usize) -> (r: usize)
    requires
        1 <= page_capacity <= u32::MAX,
    ensures
        r == spec_required_space(page_capacity as int),
        r <= 16 + 16 * 0x4000000,
{
    proof {
        lemma_div_plus_one((page_capacity - 1) as int, 64);
        lemma_div_is_ordered((page_capacity - 1) as int, (u32::MAX - 1) as int, 64);
    }
    16 + 16 * ((page_capacity - 1) / 64 + 1)
}

/// Size in bytes of the region tracker for `num_regions` regions and
/// `orders` allocation orders.
pub fn required_bytes(num_regions: u32, orders: usize) -> (r: usize)
    requires
        num_regions + 63 <= usize::MAX,
        orders * 8 <= usize::MAX,
        orders * 8 * (((num_regions + 63) as int) / 64) + 8 <= usize::MAX,
    ensures
        r == spec_required_bytes(num_regions as int, orders as int),
{
    8 + orders * 8 * (((num_regions as usize) + 63) / 64)
}

/// Quotient of `value` by `denominator`, defined only for even divisions.
pub fn div_even(value: u32, denominator: u32) -> (r: u32)
    requires
        denominator > 0,
        value % denominator == 0,
    ensures
        r == value as int / denominator as int,
        r * denominator == value,
{
    proof {
        lemma_fundamental_div_mod(value as int, denominator as int);
        lemma_mul_is_commutative(value as int / denominator as int, denominator as int);
    }
    value / denominator
}

/// `value` rounded up to the next multiple of `multiple`.
pub open spec fn spec_round_up_to_multiple_of(value: int, multiple: int) -> int {
    if value % multiple == 0 {
        value
    } else {
        value + multiple - value % multiple
    }
}

/// The rounded value is the least multiple of `multiple` at or above `value`.
pub proof fn lemma_round_up_properties(value: int, multiple: int)
    requires
        value >= 0,
        multiple > 0,
    ensures
        spec_round_up_to_multiple_of(value, multiple) % multiple == 0,
        value <= spec_round_up_to_multiple_of(value, multiple) < value + multiple,
        spec_round_up_to_multiple_of(value, multiple) == multiple * (
        spec_round_up_to_multiple_of(value, multiple) / multiple),
{
    let r = spec_round_up_to_multiple_of(value, multiple);
    let q = value / multiple;
    lemma_fundamental_div_mod(value, multiple);
    if value % multiple != 0 {
        assert(r == multiple * q + multiple);
        assert(r == (q + 1) * multiple) by (nonlinear_arith)
            requires
                r == multiple * q + multiple,
        ;
        lemma_mod_multiples_basic(q + 1, multiple);
    }
    lemma_fundamental_div_mod(r, multiple);
}

pub fn round_up_to_multiple_of(value: usize, multiple: usize) -> (r: usize)
    requires
        multiple > 0,
        spec_round_up_to_multiple_of(value as int, multiple as int) <= usize::MAX,
    ensures
        r == spec_round_up_to_multiple_of(value as int, multiple as int),
{
    if value % multiple == 0 {
        value
    } else {
        value + (multiple - value % multiple)
    }
}

/// Pages reserved at the start of a region for its allocator header: the
/// header's byte size rounded up to whole pages.
pub open spec fn spec_header_pages(page_capacity: int, page_size: int) -> int {
    spec_round_up_to_multiple_of(spec_required_space(page_capacity), page_size) / page_size
}

/// Bytes those header pages occupy.
pub open spec fn spec_header_bytes(page_capacity: int, page_size: int) -> int {
    spec_header_pages(page_capacity, page_size) * page_size
}

/// The header byte count is exactly the rounded-up header size, it is at
/// least one page, and for any page capacity a `u32` can hold it stays within
/// `u32` range.
pub proof fn lemma_header_bytes_bounds(page_capacity: int, page_size: int)
    requires
        1 <= page_capacity <= u32::MAX,
        1 <= page_size <= u32::MAX,
    ensures
        spec_header_bytes(page_capacity, page_size) == spec_round_up_to_multiple_of(
            spec_required_space(page_capacity),
            page_size,
        ),
        page_size <= spec_header_bytes(page_capacity, page_size) <= u32::MAX,
        1 <= spec_header_pages(page_capacity, page_size) <= u32::MAX,
{
    let v = spec_required_space(page_capacity);
    lemma_div_pos_is_pos(page_capacity + 63, 64);
    lemma_div_is_ordered(page_capacity + 63, u32::MAX + 63, 64);
    assert(16 <= v <= 0x40000010);
    let r = spec_round_up_to_multiple_of(v, page_size);
    lemma_round_up_properties(v, page_size);
    let hp = r / page_size;
    lemma_mul_is_commutative(hp, page_size);
    assert(spec_header_bytes(page_capacity, page_size) == r);
    if v <= page_size {
        assert(r < v + page_size <= 2 * page_size);
        assert(0 < r);
        assert(hp == 1) by (nonlinear_arith)
            requires
                page_size > 0,
                r == page_size * hp,
                0 < r < 2 * page_size,
        ;
        assert(r == page_size * 1) by (nonlinear_arith)
            requires
                r == page_size * hp,
                hp == 1,
        ;
    } else {
        assert(r < v + page_size < 2 * v <= u32::MAX);
        lemma_div_is_ordered(page_size, r, page_size);
        lemma_div_by_self(page_size);
        lemma_div_nonincreasing(r, page_size);
    }
}

/// Usable data pages that fit in `space` bytes once the allocator header for
/// `(page_capacity, page_size)` has been taken out.
pub open spec fn spec_usable_pages(space: int, page_capacity: int, page_size: int) -> int {
    (space - spec_header_bytes(page_capacity, page_size)) / page_size
}

/// Geometry of one region: `header_pages` pages of allocator header at the
/// region start, then `num_pages` usable data pages, all of size `page_size`.
#[derive(Clone, Copy, Debug)]
pub struct RegionLayout {
    pub num_pages: u32,
    pub header_pages: u32,
    pub page_size: u32,
}

/// The region planned by `RegionLayout::calculate`: `None` when the desired
/// usable bytes or the available space cannot reach `MIN_USABLE_PAGES`
/// usable pages, else a region occupying the smaller of the available space
/// and the requested usable bytes plus header, with whole pages.
pub open spec fn spec_region_calculate(
    available_space: int,
    desired_usable_bytes: int,
    page_capacity: int,
    page_size: int,
) -> Option<RegionLayout> {
    let hb = spec_header_bytes(page_capacity, page_size);
    let used = if desired_usable_bytes + hb <= available_space {
        desired_usable_bytes + hb
    } else {
        available_space
    };
    if desired_usable_bytes / page_size < MIN_USABLE_PAGES || available_space < hb
        + MIN_USABLE_PAGES * page_size || (used - hb) / page_size < MIN_USABLE_PAGES {
        None
    } else {
        Some(
            RegionLayout {
                num_pages: ((used - hb) / page_size) as u32,
                header_pages: spec_header_pages(page_capacity, page_size) as u32,
                page_size: page_size as u32,
            },
        )
    }
}

impl RegionLayout {
    /// Bytes the region occupies: header pages plus data pages.
    pub open spec fn spec_len(self) -> int {
        self.header_pages * self.page_size + self.spec_usable_bytes()
    }

    /// Bytes available for page data.
    pub open spec fn spec_usable_bytes(self) -> int {
        self.page_size * self.num_pages
    }

    /// A region whose byte counts stay within the machine arithmetic that the
    /// accessors perform.
    pub open spec fn wf(self) -> bool {
        &&& self.page_size >= 1
        &&& self.header_pages * self.page_size <= u32::MAX
        &&& self.spec_len() <= u64::MAX
    }

    pub fn new(num_pages: u32, header_pages: u32, page_size: u32) -> (r: Self)
        ensures
            r == (RegionLayout { num_pages, header_pages, page_size }),
    {
        Self { num_pages, header_pages, page_size }
    }

    /// Pages of allocator header for a region able to address
    /// `page_capacity` pages.
    pub fn header_pages(page_capacity: u32, page_size: u32) -> (r: u32)
        requires
            page_capacity >= 1,
            page_size >= 1,
        ensures
            r == spec_header_pages(page_capacity as int, page_size as int),
            r >= 1,
    {
        proof {
            lemma_header_bytes_bounds(page_capacity as int, page_size as int);
            lemma_round_up_properties(
                spec_required_space(page_capacity as int),
                page_size as int,
            );
        }
        let header_size: u64 = required_space(page_capacity as usize) as u64;
        let page_size: u64 = page_size as u64;
        let rounded: u64 = if header_size % page_size == 0 {
            header_size
        } else {
            header_size + (page_size - header_size % page_size)
        };
        (rounded / page_size) as u32
    }

    /// Usable data pages in `space` bytes after the allocator header.
    pub fn calculate_usable_pages(space: u64, page_capacity: u32, page_size: u32) -> (r: u32)
        requires
            page_capacity >= 1,
            page_size >= 1,
            spec_header_bytes(page_capacity as int, page_size as int) < space,
            spec_usable_pages(space as int, page_capacity as int, page_size as int) <= u32::MAX,
        ensures
            r == spec_usable_pages(space as int, page_capacity as int, page_size as int),
    {
        proof {
            lemma_header_bytes_bounds(page_capacity as int, page_size as int);
            lemma_div_pos_is_pos(
                space - spec_header_bytes(page_capacity as int, page_size as int),
                page_size as int,
            );
        }
        let header_pages: u64 = Self::header_pages(page_capacity, page_size) as u64;
        let page_size: u64 = page_size as u64;
        let header_bytes: u64 = header_pages * page_size;
        ((space - header_bytes) / page_size) as u32
    }

    /// Plans one region inside `available_space` bytes, aiming for
    /// `desired_usable_bytes` of page data: the region never exceeds the
    /// available space, never provisions more usable bytes than desired, and
    /// is `None` whenever fewer than `MIN_USABLE_PAGES` pages would result.
    pub fn calculate(
        available_space: u64,
        desired_usable_bytes: u64,
        page_capacity: u32,
        page_size: u32,
    ) -> (r: Option<RegionLayout>)
        requires
            page_capacity >= 1,
            page_size >= 1,
            desired_usable_bytes as int / page_size as int <= u32::MAX,
        ensures
            r == spec_region_calculate(
                available_space as int,
                desired_usable_bytes as int,
                page_capacity as int,
                page_size as int,
            ),
            available_space < spec_header_bytes(page_capacity as int, page_size as int)
                + MIN_USABLE_PAGES * page_size ==> r is None,
            r matches Some(region) ==> {
                &&& region.wf()
                &&& region.spec_len() <= available_space
                &&& region.spec_usable_bytes() <= desired_usable_bytes
                &&& region.num_pages >= MIN_USABLE_PAGES
                &&& region.header_pages == spec_header_pages(page_capacity as int, page_size as int)
                &&& region.page_size == page_size
            },
    {
        proof {
            lemma_header_bytes_bounds(page_capacity as int, page_size as int);
        }
        let ghost hb = spec_header_bytes(page_capacity as int, page_size as int);
        let header_pages: u32 = Self::header_pages(page_capacity, page_size);
        let required_header_bytes: u64 = (header_pages as u64) * (page_size as u64);
        if desired_usable_bytes / (page_size as u64) < MIN_USABLE_PAGES as u64 {
            return None;
        }
        if available_space < required_header_bytes + (MIN_USABLE_PAGES as u64) * (page_size
            as u64) {
            return None;
        }
        proof {
            lemma_fundamental_div_mod(desired_usable_bytes as int, page_size as int);
            lemma_mul_inequality(
                MIN_USABLE_PAGES as int,
                desired_usable_bytes as int / page_size as int,
                page_size as int,
            );
            lemma_mul_is_commutative(
                page_size as int,
                desired_usable_bytes as int / page_size as int,
            );
            assert(desired_usable_bytes >= MIN_USABLE_PAGES * page_size);
        }
        let used_space: u64 = if desired_usable_bytes > u64::MAX - required_header_bytes {
            available_space
        } else if desired_usable_bytes + required_header_bytes <= available_space {
            desired_usable_bytes + required_header_bytes
        } else {
            available_space
        };
        proof {
            lemma_div_is_ordered(
                used_space - hb,
                desired_usable_bytes as int,
                page_size as int,
            );
        }
        let num_pages: u32 = Self::calculate_usable_pages(used_space, page_capacity, page_size);
        if num_pages < MIN_USABLE_PAGES as u32 {
            return None;
        }
        proof {
            lemma_fundamental_div_mod(used_space - hb, page_size as int);
            lemma_mod_division_less_than_divisor(used_space - hb, page_size as int);
            lemma_mul_is_commutative(page_size as int, num_pages as int);
            assert(num_pages * page_size <= used_space - hb);
            lemma_mul_inequality(
                num_pages as int,
                desired_usable_bytes as int / page_size as int,
                page_size as int,
            );
        }
        Some(RegionLayout { num_pages, header_pages, page_size })
    }

    /// The canonical maximally-full region: every page the allocator header
    /// can address is usable, so `num_pages` equals the page capacity.
    pub fn full_region_layout(page_capacity: u32, page_size: u32) -> (r: RegionLayout)
        requires
            page_capacity >= MIN_USABLE_PAGES,
            page_size >= 1,
        ensures
            r.num_pages == page_capacity,
            r.header_pages == spec_header_pages(page_capacity as int, page_size as int),
            r.page_size == page_size,
            r.wf(),
            r.spec_usable_bytes() == page_capacity * page_size,
            r.spec_len() == spec_header_bytes(page_capacity as int, page_size as int)
                + page_capacity * page_size,
    {
        proof {
            lemma_header_bytes_bounds(page_capacity as int, page_size as int);
            lemma_mul_upper_bound(
                page_capacity as int,
                u32::MAX as int,
                page_size as int,
                u32::MAX as int,
            );
        }
        let max_usable_region_bytes: u64 = (page_capacity as u64) * (page_size as u64);
        let header_bytes: u64 = RegionLayout::header_pages(page_capacity, page_size) as u64
            * (page_size as u64);
        let max_region_size: u64 = max_usable_region_bytes + header_bytes;
        proof {
            lemma_mul_is_commutative(page_capacity as int, page_size as int);
            lemma_div_multiples_vanish(page_capacity as int, page_size as int);
            lemma_mul_inequality(MIN_USABLE_PAGES as int, page_capacity as int, page_size as int);
        }
        let r = Self::calculate(max_region_size, max_usable_region_bytes, page_capacity, page_size);
        r.unwrap()
    }

    /// Offset range, relative to the region start, of the usable data pages.
    pub fn data_section(&self) -> (r: core::ops::Range<usize>)
        requires
            self.wf(),
            self.spec_len() <= usize::MAX,
        ensures
            r.start == self.header_pages * self.page_size,
            r.end == self.spec_len(),
    {
        let usable: usize = self.usable_bytes() as usize;
        let header_bytes: usize = (self.header_pages * self.page_size) as usize;
        header_bytes..(header_bytes + usable)
    }

    pub fn get_header_pages(&self) -> (r: u32)
        ensures
            r == self.header_pages,
    {
        self.header_pages
    }

    pub fn num_pages(&self) -> (r: u32)
        ensures
            r == self.num_pages,
    {
        self.num_pages
    }

    /// Bytes the region occupies in the file.
    pub fn len(&self) -> (r: u64)
        requires
            self.wf(),
        ensures
            r == self.spec_len(),
    {
        (self.header_pages as u64) * (self.page_size as u64) + self.usable_bytes()
    }

    /// Bytes available for page data.
    pub fn usable_bytes(&self) -> (r: u64)
        ensures
            r == self.spec_usable_bytes(),
    {
        proof {
            lemma_mul_upper_bound(
                self.page_size as int,
                u32::MAX as int,
                self.num_pages as int,
                u32::MAX as int,
            );
        }
        self.page_size as u64 * self.num_pages as u64
    }
}

/// Adding `divisor - 1` before a floor division computes a ceiling: the floor
/// quotient, plus one exactly when the division leaves a remainder.
pub proof fn lemma_ceil_div(x: int, d: int)
    requires
        x >= 0,
        d > 0,
    ensures
        (x + d - 1) / d == x / d + if x % d == 0 {
            0int
        } else {
            1int
        },
{
    let q = x / d;
    let r = x % d;
    lemma_fundamental_div_mod(x, d);
    lemma_mod_division_less_than_divisor(x, d);
    if r == 0 {
        lemma_mul_is_commutative(q, d);
        lemma_fundamental_div_mod_converse(x + d - 1, d, q, d - 1);
    } else {
        assert(x + d - 1 == (q + 1) * d + (r - 1)) by (nonlinear_arith)
            requires
                x == d * q + r,
        ;
        lemma_fundamental_div_mod_converse(x + d - 1, d, q + 1, r - 1);
    }
}

/// A value of at most `u32::MAX` pages' worth of bytes, divided by anything
/// at least `k` pages long, yields a quotient of at most `u32::MAX / k`.
pub proof fn lemma_quotient_bound(x: int, page_size: int, divisor: int, k: int)
    requires
        page_size >= 1,
        k >= 1,
        0 <= x <= u32::MAX * page_size,
        divisor >= k * page_size,
    ensures
        x / divisor <= u32::MAX as int / k,
{
    let m = u32::MAX as int;
    let q = m / k;
    let r = m % k;
    lemma_fundamental_div_mod(m, k);
    lemma_mod_division_less_than_divisor(m, k);
    assert(k * page_size >= 1) by (nonlinear_arith)
        requires
            k >= 1,
            page_size >= 1,
    ;
    lemma_div_is_ordered_by_denominator(x, k * page_size, divisor);
    lemma_div_is_ordered(x, m * page_size, k * page_size);
    assert(m * page_size == q * (k * page_size) + r * page_size) by (nonlinear_arith)
        requires
            m == k * q + r,
    ;
    assert(0 <= r * page_size < k * page_size) by (nonlinear_arith)
        requires
            0 <= r < k,
            page_size >= 1,
    ;
    lemma_fundamental_div_mod_converse(m * page_size, k * page_size, q, r * page_size);
}

/// Rounding a value of at most `0x7fffffff` up to a multiple of a `u32` page
/// size stays within `u32` range.
pub proof fn lemma_round_up_u32_bound(value: int, multiple: int)
    requires
        0 <= value <= 0x7fffffff,
        1 <= multiple <= u32::MAX,
    ensures
        spec_round_up_to_multiple_of(value, multiple) <= u32::MAX,
{
    let r = spec_round_up_to_multiple_of(value, multiple);
    lemma_round_up_properties(value, multiple);
    if value == 0 {
        lemma_mod_multiples_basic(0, multiple);
        assert(value % multiple == 0);
    } else if value <= multiple {
        let hp = r / multiple;
        assert(hp == 1) by (nonlinear_arith)
            requires
                multiple > 0,
                r == multiple * hp,
                0 < r < 2 * multiple,
        ;
        assert(r == multiple * 1) by (nonlinear_arith)
            requires
                r == multiple * hp,
                hp == 1,
        ;
    } else {
        assert(r < value + multiple < 2 * value <= u32::MAX);
    }
}

/// Smallest superheader any capacity needs: the database header plus a region
/// tracker sized for a single region.
pub open spec fn spec_min_header_size() -> int {
    DB_HEADER_SIZE + spec_required_bytes(1, MAX_MAX_PAGE_ORDER + 1)
}

/// The canonical full region for `(page_capacity, page_size)`.
pub open spec fn spec_full_region(page_capacity: int, page_size: int) -> RegionLayout {
    RegionLayout {
        num_pages: page_capacity as u32,
        header_pages: spec_header_pages(page_capacity, page_size) as u32,
        page_size: page_size as u32,
    }
}

/// Most regions `db_capacity` could ever hold, counting full-region lengths
/// against the capacity left after a minimal superheader and rounding up, so
/// the region tracker is sized once for the worst case.
pub open spec fn spec_max_regions(db_capacity: int, page_capacity: int, page_size: int) -> int {
    let full_len = spec_full_region(page_capacity, page_size).spec_len();
    (db_capacity - spec_min_header_size() + full_len - 1) / full_len
}

/// Bytes of database header plus a region tracker sized for the worst-case
/// region count of `db_capacity`.
pub open spec fn spec_db_header_bytes(db_capacity: int, page_capacity: int, page_size: int) -> int {
    DB_HEADER_SIZE + spec_required_bytes(
        spec_max_regions(db_capacity, page_capacity, page_size),
        MAX_MAX_PAGE_ORDER + 1,
    )
}

/// The database header bytes rounded up to whole pages.
pub open spec fn spec_superheader_bytes_for(
    db_capacity: int,
    page_capacity: int,
    page_size: int,
) -> int {
    spec_round_up_to_multiple_of(
        spec_db_header_bytes(db_capacity, page_capacity, page_size),
        page_size,
    )
}

/// The desired usable bytes, clamped to the file capacity.
pub open spec fn spec_clamp_desired(desired_usable_bytes: int, db_capacity: int) -> int {
    if desired_usable_bytes <= db_capacity {
        desired_usable_bytes
    } else {
        db_capacity
    }
}

/// Single-region planning is chosen exactly when the clamped desired usable
/// bytes fit in one full region, or the capacity after the superheader cannot
/// hold more than one full region.
pub open spec fn spec_single_region(
    db_capacity: int,
    desired_usable_bytes: int,
    page_capacity: int,
    page_size: int,
) -> bool {
    let full = spec_full_region(page_capacity, page_size);
    spec_clamp_desired(desired_usable_bytes, db_capacity) <= full.spec_usable_bytes() || db_capacity
        - spec_superheader_bytes_for(db_capacity, page_capacity, page_size) <= full.spec_len()
}

/// Full regions planned in the multi-region case: as many as fit in the
/// capacity after the superheader, but no more than the clamped desired
/// usable bytes ask for.
pub open spec fn spec_num_full_regions(
    db_capacity: int,
    desired_usable_bytes: int,
    page_capacity: int,
    page_size: int,
) -> int {
    let full = spec_full_region(page_capacity, page_size);
    let max_full = (db_capacity - spec_superheader_bytes_for(db_capacity, page_capacity, page_size))
        / full.spec_len();
    let desired_full = spec_clamp_desired(desired_usable_bytes, db_capacity)
        / full.spec_usable_bytes();
    if max_full <= desired_full {
        max_full
    } else {
        desired_full
    }
}

/// Layout planning succeeds exactly when the capacity holds the superheader
/// plus a minimal region and, under single-region planning, the remaining
/// capacity yields a region.
pub open spec fn spec_calculate_ok(
    db_capacity: int,
    desired_usable_bytes: int,
    page_capacity: int,
    page_size: int,
) -> bool {
    let sh = spec_superheader_bytes_for(db_capacity, page_capacity, page_size);
    &&& db_capacity >= spec_min_header_size()
    &&& db_capacity >= sh + MIN_USABLE_PAGES * page_size
    &&& (spec_single_region(db_capacity, desired_usable_bytes, page_capacity, page_size)
        ==> spec_region_calculate(
        db_capacity - sh,
        spec_clamp_desired(desired_usable_bytes, db_capacity),
        page_capacity,
        page_size,
    ) is Some)
}

/// Whole-file geometry: a page-aligned superheader holding the database
/// header and the region tracker, then `num_full_regions` regions of the
/// canonical full layout, then an optional trailing partial region.
#[derive(Debug)]
pub struct DatabaseLayout {
    pub superheader_pages: u32,
    pub region_tracker_range: core::ops::Range<usize>,
    pub full_region_layout: RegionLayout,
    pub num_full_regions: u32,
    pub trailing_partial_region: Option<RegionLayout>,
}

impl DatabaseLayout {
    /// Regions in the file, the trailing partial one included.
    pub open spec fn spec_num_regions(self) -> int {
        self.num_full_regions + if self.trailing_partial_region is Some {
            1int
        } else {
            0int
        }
    }

    /// Bytes of the page-aligned superheader.
    pub open spec fn spec_superheader_bytes(self) -> int {
        self.superheader_pages * self.full_region_layout.page_size
    }

    /// File offset where region `region` starts; every region before the
    /// trailing one has the full region's length.
    pub open spec fn spec_region_base(self, region: int) -> int {
        self.spec_superheader_bytes() + region * self.full_region_layout.spec_len()
    }

    /// Geometry of region `region`: the trailing layout for the last region
    /// when one exists, the full layout otherwise.
    pub open spec fn spec_region_layout(self, region: int) -> RegionLayout {
        if region == self.num_full_regions && self.trailing_partial_region is Some {
            match self.trailing_partial_region {
                Some(t) => t,
                None => self.full_region_layout,
            }
        } else {
            self.full_region_layout
        }
    }

    /// Total file length: the last region's base plus its length.
    pub open spec fn spec_len(self) -> int {
        let last = self.spec_num_regions() - 1;
        self.spec_region_base(last) + self.spec_region_layout(last).spec_len()
    }

    /// Bytes available for page data across all regions.
    pub open spec fn spec_usable_bytes(self) -> int {
        self.num_full_regions * self.full_region_layout.spec_usable_bytes() + match self
            .trailing_partial_region {
            Some(t) => t.spec_usable_bytes(),
            None => 0int,
        }
    }

    /// A layout the accessors' machine arithmetic can handle: at least one
    /// region, a trailing region (if any) sharing the full region's page size
    /// and header size, and byte counts within range.
    pub open spec fn wf(self) -> bool {
        &&& self.full_region_layout.wf()
        &&& match self.trailing_partial_region {
            Some(t) => t.wf() && t.page_size == self.full_region_layout.page_size
                && t.header_pages == self.full_region_layout.header_pages,
            None => true,
        }
        &&& 1 <= self.spec_num_regions() <= u32::MAX
        &&& self.superheader_pages * self.full_region_layout.page_size <= u32::MAX
        &&& self.spec_len() <= usize::MAX
    }

    pub fn new(
        superheader_pages: u32,
        region_tracker_len: usize,
        full_regions: u32,
        full_region: RegionLayout,
        trailing_region: Option<RegionLayout>,
    ) -> (r: Self)
        requires
            DB_HEADER_SIZE + region_tracker_len <= usize::MAX,
        ensures
            r.superheader_pages == superheader_pages,
            r.region_tracker_range.start == DB_HEADER_SIZE,
            r.region_tracker_range.end == DB_HEADER_SIZE + region_tracker_len,
            r.full_region_layout == full_region,
            r.num_full_regions == full_regions,
            r.trailing_partial_region == trailing_region,
    {
        Self {
            superheader_pages,
            region_tracker_range: DB_HEADER_SIZE..(DB_HEADER_SIZE + region_tracker_len),
            full_region_layout: full_region,
            num_full_regions: full_regions,
            trailing_partial_region: trailing_region,
        }
    }

    /// The canonical geometry shared by every non-trailing region.
    pub fn full_region_layout(&self) -> (r: &RegionLayout)
        ensures
            *r == self.full_region_layout,
    {
        &self.full_region_layout
    }

    /// The final, possibly smaller, region, if the capacity is not an exact
    /// number of full regions.
    pub fn trailing_region_layout(&self) -> (r: Option<&RegionLayout>)
        ensures
            match r {
                Some(t) => self.trailing_partial_region == Some(*t),
                None => self.trailing_partial_region is None,
            },
    {
        self.trailing_partial_region.as_ref()
    }

    pub fn num_full_regions(&self) -> (r: u32)
        ensures
            r == self.num_full_regions,
    {
        self.num_full_regions
    }

    /// Regions in the file, the trailing partial one included.
    pub fn num_regions(&self) -> (r: u32)
        requires
            self.wf(),
        ensures
            r == self.spec_num_regions(),
    {
        if self.trailing_partial_region.is_some() {
            self.num_full_regions + 1
        } else {
            self.num_full_regions
        }
    }

    pub fn superheader_pages(&self) -> (r: u32)
        ensures
            r == self.superheader_pages,
    {
        self.superheader_pages
    }

    /// Bytes of the page-aligned superheader.
    pub fn superheader_bytes(&self) -> (r: usize)
        requires
            self.wf(),
        ensures
            r == self.spec_superheader_bytes(),
    {
        (self.superheader_pages * self.full_region_layout.page_size) as usize
    }

    /// Plans the whole file. The superheader is sized once for the
    /// worst-case region count `db_capacity` could ever hold, so the region
    /// tracker never needs relocation; then either a single trailing region
    /// is planned over the remaining capacity, or as many full regions as the
    /// clamped usable-byte target asks for and fit, plus an optional trailing
    /// partial region over the remainder. Every region, the trailing one
    /// included, carries the full region's header size. All
    /// capacity-insufficiency conditions surface as `Error::OutOfSpace`.
    pub fn calculate(
        db_capacity: u64,
        desired_usable_bytes: u64,
        page_capacity: u32,
        page_size: u32,
    ) -> (r: Result<Self, Error>)
        requires
            MIN_USABLE_PAGES <= page_capacity,
            1 <= page_size,
            db_capacity <= u32::MAX as int * page_size as int,
            db_capacity <= usize::MAX,
        ensures
            r is Ok <==> spec_calculate_ok(
                db_capacity as int,
                desired_usable_bytes as int,
                page_capacity as int,
                page_size as int,
            ),
            r is Err ==> r == Err::<DatabaseLayout, Error>(Error::OutOfSpace),
            r matches Ok(l) ==> ({
                let db = db_capacity as int;
                let pc = page_capacity as int;
                let ps = page_size as int;
                let d = spec_clamp_desired(desired_usable_bytes as int, db);
                let sh = spec_superheader_bytes_for(db, pc, ps);
                let full = spec_full_region(pc, ps);
                let single = spec_single_region(db, desired_usable_bytes as int, pc, ps);
                let nf = spec_num_full_regions(db, desired_usable_bytes as int, pc, ps);
                &&& l.wf()
                &&& l.full_region_layout == full
                &&& l.spec_superheader_bytes() == sh
                &&& l.region_tracker_range.start == DB_HEADER_SIZE
                &&& l.region_tracker_range.end == spec_db_header_bytes(db, pc, ps)
                &&& (single ==> l.num_full_regions == 0 && l.trailing_partial_region
                    == spec_region_calculate(db - sh, d, pc, ps))
                &&& (!single ==> {
                    &&& l.num_full_regions == nf
                    &&& 1 <= nf
                    &&& l.trailing_partial_region == spec_region_calculate(
                        db - sh - nf * full.spec_len(),
                        d - nf * full.spec_usable_bytes(),
                        pc,
                        ps,
                    )
                    &&& nf * full.spec_usable_bytes() <= desired_usable_bytes
                })
                &&& (l.num_full_regions == 0 <==> single)
                &&& l.spec_len() <= db_capacity
            }),
    {
        let ghost dbg = db_capacity as int;
        let ghost pcg = page_capacity as int;
        let ghost psg = page_size as int;
        let desired = if desired_usable_bytes <= db_capacity {
            desired_usable_bytes
        } else {
            db_capacity
        };
        let ghost dg = spec_clamp_desired(desired_usable_bytes as int, dbg);
        let full_region_layout = RegionLayout::full_region_layout(page_capacity, page_size);
        let min_header_size: usize = DB_HEADER_SIZE + required_bytes(1, MAX_MAX_PAGE_ORDER + 1);
        proof {
            assert(spec_min_header_size() == 240);
        }
        if db_capacity < min_header_size as u64 {
            return Err(Error::OutOfSpace);
        }
        proof {
            lemma_superheader_bounds(dbg, pcg, psg);
        }
        let ghost fullg = spec_full_region(pcg, psg);
        let ghost flg = fullg.spec_len();
        let full_len: u64 = full_region_layout.len();
        let full_usable: u64 = full_region_layout.usable_bytes();
        let remaining = db_capacity - min_header_size as u64;
        proof {
            lemma_div_nonincreasing(remaining as int, flg);
            lemma_ceil_div(remaining as int, flg);
        }
        let q: u64 = remaining / full_len;
        let max_regions_u64: u64 = q + if remaining % full_len != 0 {
            1
        } else {
            0
        };
        let max_regions: u32 = max_regions_u64 as u32;
        proof {
            assert(max_regions == spec_max_regions(dbg, pcg, psg));
        }
        let db_header_bytes: usize = DB_HEADER_SIZE + required_bytes(
            max_regions,
            MAX_MAX_PAGE_ORDER + 1,
        );
        let superheader_bytes: usize = round_up_to_multiple_of(
            db_header_bytes,
            page_size as usize,
        );
        let ghost shg = spec_superheader_bytes_for(dbg, pcg, psg);
        if db_capacity < superheader_bytes as u64 + (MIN_USABLE_PAGES as u64) * (page_size
            as u64) {
            return Err(Error::OutOfSpace);
        }
        let superheader_pages: u32 = div_even(superheader_bytes as u32, page_size);
        proof {
            lemma_quotient_bound(dg, psg, psg, 1);
            assert(psg >= 1 * psg) by (nonlinear_arith);
            assert(u32::MAX as int / 1 == u32::MAX);
        }
        let result = if desired <= full_usable || db_capacity - superheader_bytes as u64
            <= full_len {
            let region_layout = match RegionLayout::calculate(
                db_capacity - superheader_bytes as u64,
                desired,
                page_capacity,
                page_size,
            ) {
                Some(region) => region,
                None => {
                    return Err(Error::OutOfSpace);
                },
            };
            let l = DatabaseLayout {
                superheader_pages,
                region_tracker_range: DB_HEADER_SIZE..db_header_bytes,
                full_region_layout,
                num_full_regions: 0,
                trailing_partial_region: Some(region_layout),
            };
            proof {
                assert(0int * flg == 0) by (nonlinear_arith);
                assert(l.spec_num_regions() == 1);
                assert(l.spec_superheader_bytes() == shg);
                assert(l.spec_len() == shg + region_layout.spec_len());
                assert(l.spec_len() <= dbg);
                assert(l.wf());
            }
            l
        } else {
            proof {
                assert(fullg.spec_usable_bytes() >= 1) by (nonlinear_arith)
                    requires
                        fullg.spec_usable_bytes() == psg * pcg,
                        psg >= 1,
                        pcg >= 1,
                ;
            }
            let max_full_regions: u64 = (db_capacity - superheader_bytes as u64) / full_len;
            let desired_full_regions: u64 = desired / full_usable;
            let num_full_regions: u64 = if max_full_regions <= desired_full_regions {
                max_full_regions
            } else {
                desired_full_regions
            };
            let ghost nfg = num_full_regions as int;
            proof {
                lemma_div_by_self(flg);
                lemma_div_is_ordered(flg, dbg - shg, flg);
                lemma_div_by_self(fullg.spec_usable_bytes());
                lemma_div_is_ordered(fullg.spec_usable_bytes(), dg, fullg.spec_usable_bytes());
                assert(num_full_regions >= 1);
                lemma_quotient_bound(dbg - shg, psg, flg, 11);
                assert(num_full_regions <= 390451572);
                lemma_fundamental_div_mod(dbg - shg, flg);
                lemma_mod_division_less_than_divisor(dbg - shg, flg);
                lemma_mul_inequality(nfg, max_full_regions as int, flg);
                lemma_mul_is_commutative(max_full_regions as int, flg);
                assert(nfg * flg <= dbg - shg);
                lemma_fundamental_div_mod(dg, fullg.spec_usable_bytes());
                lemma_mod_division_less_than_divisor(dg, fullg.spec_usable_bytes());
                lemma_mul_inequality(
                    nfg,
                    desired_full_regions as int,
                    fullg.spec_usable_bytes(),
                );
                lemma_mul_is_commutative(desired_full_regions as int, fullg.spec_usable_bytes());
                assert(nfg * fullg.spec_usable_bytes() <= dg);
                lemma_div_is_ordered(dg - nfg * fullg.spec_usable_bytes(), dg, psg);
            }
            let remaining_space: u64 = db_capacity - superheader_bytes as u64 - num_full_regions
                * full_len;
            let remaining_desired: u64 = desired - num_full_regions * full_usable;
            let trailing_region = RegionLayout::calculate(
                remaining_space,
                remaining_desired,
                page_capacity,
                page_size,
            );
            let l = DatabaseLayout {
                superheader_pages,
                region_tracker_range: DB_HEADER_SIZE..db_header_bytes,
                full_region_layout,
                num_full_regions: num_full_regions as u32,
                trailing_partial_region: trailing_region,
            };
            proof {
                assert(l.spec_superheader_bytes() == shg);
                match trailing_region {
                    Some(t) => {
                        assert(l.spec_num_regions() == nfg + 1);
                        assert(l.spec_len() == shg + nfg * flg + t.spec_len());
                        assert(t.spec_len() <= remaining_space);
                        assert(l.spec_len() <= dbg);
                    },
                    None => {
                        assert(l.spec_num_regions() == nfg);
                        assert((nfg - 1) * flg + flg == nfg * flg) by (nonlinear_arith);
                        assert(l.spec_len() == shg + nfg * flg);
                        assert(l.spec_len() <= dbg);
                    },
                }
                assert(l.wf());
            }
            l
        };
        Ok(result)
    }

    /// Sub-range of the superheader holding the region free-space tracker.
    pub fn region_tracker_address_range(&self) -> (r: core::ops::Range<usize>)
        ensures
            r.start == self.region_tracker_range.start,
            r.end == self.region_tracker_range.end,
    {
        self.region_tracker_range.start..self.region_tracker_range.end
    }

    /// File offset where region `region` starts.
    pub fn region_base_address(&self, region: u32) -> (r: usize)
        requires
            self.wf(),
            region < self.spec_num_regions(),
        ensures
            r == self.spec_region_base(region as int),
    {
        proof {
            lemma_region_base_bounds(*self, region as int);
        }
        ((self.superheader_bytes() as u64) + (region as u64) * self.full_region_layout.len())
            as usize
    }

    /// Geometry of region `region`: the trailing layout for the final region
    /// when one exists, the full layout otherwise. Every region shares the
    /// full layout's page size and header size.
    pub fn region_layout(&self, region: u32) -> (r: RegionLayout)
        requires
            self.wf(),
            region < self.spec_num_regions(),
        ensures
            r == self.spec_region_layout(region as int),
            r.wf(),
            r.header_pages == self.full_region_layout.header_pages,
            r.page_size == self.full_region_layout.page_size,
    {
        if region == self.num_full_regions {
            match &self.trailing_partial_region {
                Some(t) => *t,
                None => unreached(),
            }
        } else {
            self.full_region_layout
        }
    }

    /// Total file length: the last region's base plus its length.
    pub fn len(&self) -> (r: u64)
        requires
            self.wf(),
        ensures
            r == self.spec_len(),
    {
        let last = self.num_regions() - 1;
        proof {
            lemma_region_base_bounds(*self, last as int);
        }
        (self.region_base_address(last) as u64) + self.region_layout(last).len()
    }

    /// Bytes available for page data across all regions.
    pub fn usable_bytes(&self) -> (r: u64)
        requires
            self.wf(),
        ensures
            r == self.spec_usable_bytes(),
            r <= self.spec_len(),
    {
        let nf = self.num_full_regions;
        let full = self.full_region_layout;
        proof {
            lemma_mul_nonnegative(
                self.superheader_pages as int,
                full.page_size as int,
            );
            lemma_mul_nonnegative(full.header_pages as int, full.page_size as int);
            lemma_mul_inequality(
                full.spec_usable_bytes(),
                full.spec_len(),
                nf as int,
            );
            lemma_mul_is_commutative(full.spec_usable_bytes(), nf as int);
            lemma_mul_is_commutative(full.spec_len(), nf as int);
            if self.trailing_partial_region is None {
                assert((nf - 1) * full.spec_len() + full.spec_len() == nf * full.spec_len())
                    by (nonlinear_arith);
                assert(self.spec_len() == self.spec_superheader_bytes() + nf * full.spec_len());
            } else {
                match self.trailing_partial_region {
                    Some(t) => {
                        lemma_mul_nonnegative(t.header_pages as int, t.page_size as int);
                    },
                    None => (),
                }
            }
        }
        let trailing: u64 = match &self.trailing_partial_region {
            Some(t) => t.usable_bytes(),
            None => 0,
        };
        (nf as u64) * full.usable_bytes() + trailing
    }
}

/// Region base addresses step by exactly the full region's length — every
/// non-trailing region has that length — and each region lies wholly inside
/// the file.
pub proof fn lemma_region_base_bounds(l: DatabaseLayout, region: int)
    requires
        l.wf(),
        0 <= region < l.spec_num_regions(),
    ensures
        l.spec_region_base(region + 1) - l.spec_region_base(region)
            == l.full_region_layout.spec_len(),
        0 <= l.spec_superheader_bytes() <= l.spec_region_base(region),
        l.spec_region_base(region) + l.spec_region_layout(region).spec_len() <= l.spec_len(),
        0 <= region * l.full_region_layout.spec_len(),
{
    let last = l.spec_num_regions() - 1;
    let fl = l.full_region_layout.spec_len();
    lemma_mul_nonnegative(
        l.superheader_pages as int,
        l.full_region_layout.page_size as int,
    );
    lemma_mul_nonnegative(
        l.full_region_layout.header_pages as int,
        l.full_region_layout.page_size as int,
    );
    lemma_mul_nonnegative(region, fl);
    assert((region + 1) * fl == region * fl + fl) by (nonlinear_arith);
    match l.trailing_partial_region {
        Some(t) => {
            lemma_mul_nonnegative(t.header_pages as int, t.page_size as int);
        },
        None => (),
    }
    if region < last {
        lemma_mul_inequality(region + 1, last, fl);
        assert(l.spec_region_layout(region) == l.full_region_layout);
        assert(l.spec_region_base(region) + fl <= l.spec_region_base(last));
    }
}

/// Bounds on the worst-case region count, the database header, and the
/// superheader, for any capacity whose page count fits a `u32`.
pub proof fn lemma_superheader_bounds(db_capacity: int, page_capacity: int, page_size: int)
    requires
        MIN_USABLE_PAGES <= page_capacity <= u32::MAX,
        1 <= page_size <= u32::MAX,
        spec_min_header_size() <= db_capacity <= u32::MAX * page_size,
    ensures
        spec_min_header_size() == 240,
        spec_full_region(page_capacity, page_size).wf(),
        spec_full_region(page_capacity, page_size).spec_len() >= (MIN_USABLE_PAGES + 1)
            * page_size,
        0 <= spec_max_regions(db_capacity, page_capacity, page_size) <= 390451573,
        72 <= spec_db_header_bytes(db_capacity, page_capacity, page_size) <= 0x7fffffff,
        spec_db_header_bytes(db_capacity, page_capacity, page_size)
            <= spec_superheader_bytes_for(db_capacity, page_capacity, page_size) <= u32::MAX,
        spec_superheader_bytes_for(db_capacity, page_capacity, page_size) % page_size == 0,
{
    let full = spec_full_region(page_capacity, page_size);
    let fl = full.spec_len();
    lemma_header_bytes_bounds(page_capacity, page_size);
    lemma_mul_upper_bound(page_size, u32::MAX as int, page_capacity, u32::MAX as int);
    lemma_mul_inequality(MIN_USABLE_PAGES as int, page_capacity, page_size);
    lemma_mul_is_commutative(page_capacity, page_size);
    assert(full.spec_usable_bytes() == page_size * page_capacity);
    assert(fl >= page_size + MIN_USABLE_PAGES * page_size);
    assert((MIN_USABLE_PAGES + 1) * page_size == MIN_USABLE_PAGES * page_size + page_size)
        by (nonlinear_arith);
    assert(11 * page_size <= fl) by (nonlinear_arith)
        requires
            fl >= (MIN_USABLE_PAGES + 1) * page_size,
            MIN_USABLE_PAGES == 10,
            page_size >= 1,
    ;
    let d = db_capacity - spec_min_header_size();
    let mr = spec_max_regions(db_capacity, page_capacity, page_size);
    lemma_ceil_div(d, fl);
    lemma_div_pos_is_pos(d, fl);
    lemma_quotient_bound(d, page_size, fl, 11);
    assert(u32::MAX as int / 11 == 390451572);
    assert(mr <= 390451573);
    let dhb = spec_db_header_bytes(db_capacity, page_capacity, page_size);
    lemma_div_is_ordered(mr + 63, 390451573int + 63, 64);
    lemma_div_pos_is_pos(mr + 63, 64);
    assert(dhb <= 64 + 8 + 168 * ((390451573 + 63) / 64));
    let sh = spec_superheader_bytes_for(db_capacity, page_capacity, page_size);
    lemma_round_up_properties(dhb, page_size);
    lemma_round_up_u32_bound(dhb, page_size);
}

} // verus!
