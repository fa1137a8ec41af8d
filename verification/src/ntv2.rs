//! NTv2 grid-shift files: the binary layout of the overview header, the
//! sub-grid headers and the shift records, in either byte order.
use vstd::prelude::*;
use vstd::string::StringExecFns;
use crate::decode::{
    i32_at, lemma_byte_order_mirror_u32, lemma_byte_order_mirror_u64, read_i32, read_u32, read_u64,
    u32_at, u64_at,
};
use crate::error::Error;
use crate::text::{field_text, read_string, utf8_lossy};

verus! {

/// Size in bytes of the overview header and of each sub-grid header
/// (eleven records of sixteen bytes).
pub const HEADER_LEN: usize = 176;

/// Size in bytes of one grid-shift record (four binary32 values).
pub const RECORD_LEN: usize = 16;

/// One sub-grid of an NTv2 file, as stored: the limits and increments are the
/// IEEE-754 binary64 bit patterns of values in arc-seconds (longitude positive
/// west), the shifts the binary32 bit patterns of the latitude and longitude
/// shifts in arc-seconds, row-major from south to north.
#[derive(Debug, Clone)]
pub struct SubGrid {
    pub name: String,
    pub parent: String,
    pub lat_min: u64,
    pub lat_max: u64,
    pub lon_min: u64,
    pub lon_max: u64,
    pub lat_inc: u64,
    pub lon_inc: u64,
    pub shifts: Vec<(u32, u32)>,
}

/// The content of a sub-grid.
pub struct SubGridModel {
    pub name: Seq<char>,
    pub parent: Seq<char>,
    pub lat_min: u64,
    pub lat_max: u64,
    pub lon_min: u64,
    pub lon_max: u64,
    pub lat_inc: u64,
    pub lon_inc: u64,
    pub shifts: Seq<(u32, u32)>,
}

impl View for SubGrid {
    type V = SubGridModel;

    open spec fn view(&self) -> SubGridModel {
        SubGridModel {
            name: self.name@,
            parent: self.parent@,
            lat_min: self.lat_min,
            lat_max: self.lat_max,
            lon_min: self.lon_min,
            lon_max: self.lon_max,
            lat_inc: self.lat_inc,
            lon_inc: self.lon_inc,
            shifts: self.shifts@,
        }
    }
}

/// The sub-grids of an NTv2 file, in file order.
#[derive(Debug, Clone)]
pub struct NTv2Grid {
    pub sub_grids: Vec<SubGrid>,
}

impl View for NTv2Grid {
    type V = Seq<SubGridModel>;

    open spec fn view(&self) -> Seq<SubGridModel> {
        self.sub_grids@.map_values(|g: SubGrid| g@)
    }
}

pub open spec fn abs(x: int) -> int {
    if x < 0 {
        -x
    } else {
        x
    }
}

/// The overview header's record count (`NUM_OREC`, 11 in a valid file) read
/// in the given byte order.
pub open spec fn record_count(s: Seq<u8>, little_endian: bool) -> int {
    i32_at(s, 8, little_endian)
}

/// A file is read little-endian when its record count reads as 11 that way,
/// or reads closer to 11 (in absolute value) that way than big-endian.
pub open spec fn detects_little_endian(s: Seq<u8>) -> bool {
    let le = record_count(s, true);
    let be = record_count(s, false);
    le == 11 || abs(abs(le) - 11) < abs(abs(be) - 11)
}

/// The number of sub-grids that the overview header declares.
pub open spec fn declared_sub_grids(s: Seq<u8>) -> int {
    i32_at(s, 40, detects_little_endian(s))
}

/// The shift-record count of the sub-grid header at `off`.
pub open spec fn record_count_at(s: Seq<u8>, little_endian: bool, off: int) -> int {
    i32_at(s, off + 168, little_endian)
}

/// Where the header after the sub-grid at `off` begins.
pub open spec fn next_header(s: Seq<u8>, little_endian: bool, off: int) -> int {
    off + 176 + 16 * record_count_at(s, little_endian, off)
}

/// How many shift records of the sub-grid at `off` are read: those declared,
/// as far as the file holds them whole.
pub open spec fn records_read(s: Seq<u8>, little_endian: bool, off: int) -> int {
    let declared = record_count_at(s, little_endian, off);
    let available = (s.len() - (off + 176)) / 16;
    if declared <= available {
        declared
    } else {
        available
    }
}

/// The (latitude, longitude) shift pairs of the sub-grid at `off`.
pub open spec fn shift_records(s: Seq<u8>, little_endian: bool, off: int) -> Seq<(u32, u32)> {
    Seq::new(
        records_read(s, little_endian, off) as nat,
        |i: int|
            (
                u32_at(s, off + 176 + 16 * i, little_endian) as u32,
                u32_at(s, off + 180 + 16 * i, little_endian) as u32,
            ),
    )
}

/// The sub-grid whose header begins at `off`.
pub open spec fn sub_grid_at(s: Seq<u8>, little_endian: bool, off: int) -> SubGridModel {
    SubGridModel {
        name: field_text(utf8_lossy(s.subrange(off + 8, off + 16))),
        parent: field_text(utf8_lossy(s.subrange(off + 24, off + 32))),
        lat_min: u64_at(s, off + 72, little_endian) as u64,
        lat_max: u64_at(s, off + 88, little_endian) as u64,
        lon_min: u64_at(s, off + 104, little_endian) as u64,
        lon_max: u64_at(s, off + 120, little_endian) as u64,
        lat_inc: u64_at(s, off + 136, little_endian) as u64,
        lon_inc: u64_at(s, off + 152, little_endian) as u64,
        shifts: shift_records(s, little_endian, off),
    }
}

/// The sub-grids read from the header at `off` on, at most `remaining` of
/// them, stopping at the first header that the file does not hold whole.
pub open spec fn sub_grids_from(s: Seq<u8>, little_endian: bool, off: int, remaining: nat) -> Seq<
    SubGridModel,
>
    decreases remaining,
{
    if remaining == 0 || off + 176 > s.len() {
        seq![]
    } else {
        seq![sub_grid_at(s, little_endian, off)] + sub_grids_from(
            s,
            little_endian,
            next_header(s, little_endian, off),
            (remaining - 1) as nat,
        )
    }
}

/// Whether a sub-grid header visited from `off` on declares a negative
/// record count.
pub open spec fn negative_record_count(
    s: Seq<u8>,
    little_endian: bool,
    off: int,
    remaining: nat,
) -> bool
    decreases remaining,
{
    if remaining == 0 || off + 176 > s.len() {
        false
    } else {
        record_count_at(s, little_endian, off) < 0 || negative_record_count(
            s,
            little_endian,
            next_header(s, little_endian, off),
            (remaining - 1) as nat,
        )
    }
}

/// Whether the byte-order probe takes the absolute value of `i32::MIN`.
pub open spec fn probe_overflows(s: Seq<u8>) -> bool {
    let le = record_count(s, true);
    le != 11 && (le == i32::MIN as int || record_count(s, false) == i32::MIN as int)
}

/// The files that cannot be read to the end: the byte-order probe would take
/// the absolute value of `i32::MIN`, or a sub-grid count or a record count is
/// negative, which sizes a buffer beyond the address space.
pub open spec fn read_aborts(s: Seq<u8>) -> bool {
    &&& s.len() >= 176
    &&& {
        ||| probe_overflows(s)
        ||| declared_sub_grids(s) < 0
        ||| negative_record_count(
            s,
            detects_little_endian(s),
            176,
            declared_sub_grids(s) as nat,
        )
    }
}

/// The sub-grids of a file of at least 176 bytes.
pub open spec fn grid_of(s: Seq<u8>) -> Seq<SubGridModel> {
    sub_grids_from(s, detects_little_endian(s), 176, declared_sub_grids(s) as nat)
}

fn abs_i32(x: i32) -> (r: i32)
    requires
        x != i32::MIN,
    ensures
        r == abs(x as int),
{
    if x < 0 {
        -x
    } else {
        x
    }
}

/// Whether the file is little-endian, decided on its overview record count.
fn little_endian_probe(buf: &[u8]) -> (r: bool)
    requires
        buf@.len() >= 176,
        !probe_overflows(buf@),
    ensures
        r == detects_little_endian(buf@),
{
    let le = read_i32(buf, 8, true);
    if le == 11 {
        return true;
    }
    let be = read_i32(buf, 8, false);
    let dl = abs_i32(abs_i32(le) - 11);
    let db = abs_i32(abs_i32(be) - 11);
    dl < db
}

/// Reads the sub-grid whose header begins at `off`.
fn read_sub_grid(buf: &[u8], little_endian: bool, off: usize) -> (g: SubGrid)
    requires
        off + 176 <= buf@.len(),
        record_count_at(buf@, little_endian, off as int) >= 0,
    ensures
        g@ == sub_grid_at(buf@, little_endian, off as int),
{
    let len = buf.len();
    let name = read_string(&buf[off + 8..off + 16]);
    let parent = read_string(&buf[off + 24..off + 32]);
    let lat_min = read_u64(buf, off + 72, little_endian);
    let lat_max = read_u64(buf, off + 88, little_endian);
    let lon_min = read_u64(buf, off + 104, little_endian);
    let lon_max = read_u64(buf, off + 120, little_endian);
    let lat_inc = read_u64(buf, off + 136, little_endian);
    let lon_inc = read_u64(buf, off + 152, little_endian);
    let declared = read_i32(buf, off + 168, little_endian) as usize;
    let start = off + 176;
    let available = (len - start) / 16;
    let count = if declared <= available {
        declared
    } else {
        available
    };
    let mut shifts: Vec<(u32, u32)> = Vec::new();
    let mut i: usize = 0;
    while i < count
        invariant
            off + 176 == start,
            start <= len == buf@.len(),
            count <= (len - start) / 16,
            count == records_read(buf@, little_endian, off as int),
            i <= count,
            shifts@ =~= shift_records(buf@, little_endian, off as int).subrange(0, i as int),
        decreases count - i,
    {
        let at = start + 16 * i;
        let lat_shift = read_u32(buf, at, little_endian);
        let lon_shift = read_u32(buf, at + 4, little_endian);
        shifts.push((lat_shift, lon_shift));
        i = i + 1;
    }
    assert(shifts@ =~= shift_records(buf@, little_endian, off as int));
    SubGrid { name, parent, lat_min, lat_max, lon_min, lon_max, lat_inc, lon_inc, shifts }
}

impl NTv2Grid {
    /// Whether `read` can read these bytes to the end (see `read_aborts`).
    pub fn is_readable(buf: &[u8]) -> (r: bool)
        ensures
            r == !read_aborts(buf@),
    {
        let len = buf.len();
        if len < HEADER_LEN {
            return true;
        }
        let le = read_i32(buf, 8, true);
        if le != 11 && (le == i32::MIN || read_i32(buf, 8, false) == i32::MIN) {
            return false;
        }
        let little_endian = little_endian_probe(buf);
        let declared = read_i32(buf, 40, little_endian);
        if declared < 0 {
            return false;
        }
        let ghost s = buf@;
        let mut remaining: usize = declared as usize;
        let mut offset: usize = HEADER_LEN;
        while remaining > 0 && HEADER_LEN <= len - offset
            invariant
                len == s.len(),
                s == buf@,
                len >= 176,
                !probe_overflows(s),
                little_endian == detects_little_endian(s),
                declared == declared_sub_grids(s),
                declared >= 0,
                offset <= len,
                negative_record_count(s, little_endian, 176, declared as nat)
                    == negative_record_count(s, little_endian, offset as int, remaining as nat),
            decreases remaining,
        {
            let count = read_i32(buf, offset + 168, little_endian);
            assert(count == record_count_at(s, little_endian, offset as int));
            if count < 0 {
                assert(negative_record_count(s, little_endian, offset as int, remaining as nat));
                return false;
            }
            let rest = len - offset - HEADER_LEN;
            if (count as usize) > rest / RECORD_LEN {
                assert(next_header(s, little_endian, offset as int) + 176 > s.len());
                assert(!negative_record_count(
                    s,
                    little_endian,
                    next_header(s, little_endian, offset as int),
                    (remaining - 1) as nat,
                ));
                return true;
            }
            offset = offset + HEADER_LEN + RECORD_LEN * (count as usize);
            remaining = remaining - 1;
        }
        true
    }

    /// Reads an NTv2 file held in `buf`, in either byte order.
    ///
    /// Fails when the file is shorter than its overview header. Reads at most
    /// the declared number of sub-grids and stops at the first sub-grid header
    /// that the file does not hold whole; of each sub-grid it keeps the shift
    /// records that the file holds whole, up to the declared count.
    pub fn read(buf: &[u8]) -> (r: Result<NTv2Grid, Error>)
        requires
            !read_aborts(buf@),
        ensures
            buf@.len() < 176 <==> r is Err,
            r matches Err(e) ==> e matches Error::UnsupportedCrs(m) && m@ == "NTv2 file too small"@,
            r matches Ok(g) ==> g@ == grid_of(buf@),
    {
        let len = buf.len();
        if len < HEADER_LEN {
            return Err(Error::UnsupportedCrs(String::from_str("NTv2 file too small")));
        }
        let little_endian = little_endian_probe(buf);
        let declared = read_i32(buf, 40, little_endian);
        let ghost s = buf@;
        let ghost total = declared as nat;
        let mut sub_grids: Vec<SubGrid> = Vec::new();
        let mut remaining: usize = declared as usize;
        let mut offset: usize = HEADER_LEN;
        while remaining > 0 && HEADER_LEN <= len - offset
            invariant
                len == s.len(),
                s == buf@,
                offset <= len,
                !negative_record_count(s, little_endian, offset as int, remaining as nat),
                sub_grids@.map_values(|g: SubGrid| g@) + sub_grids_from(
                    s,
                    little_endian,
                    offset as int,
                    remaining as nat,
                ) =~= sub_grids_from(s, little_endian, 176, total),
            decreases remaining,
        {
            let ghost before = sub_grids@.map_values(|g: SubGrid| g@);
            let count = read_i32(buf, offset + 168, little_endian);
            let g = read_sub_grid(buf, little_endian, offset);
            sub_grids.push(g);
            assert(sub_grids@.map_values(|g: SubGrid| g@) =~= before.push(
                sub_grid_at(s, little_endian, offset as int),
            ));
            let rest = len - offset - HEADER_LEN;
            assert(count == record_count_at(s, little_endian, offset as int));
            if (count as usize) > rest / RECORD_LEN {
                assert(next_header(s, little_endian, offset as int) + 176 > s.len());
                assert(sub_grids_from(
                    s,
                    little_endian,
                    next_header(s, little_endian, offset as int),
                    (remaining - 1) as nat,
                ) =~= seq![]);
                remaining = 0;
            } else {
                offset = offset + HEADER_LEN + RECORD_LEN * (count as usize);
                remaining = remaining - 1;
            }
        }
        Ok(NTv2Grid { sub_grids })
    }
}

/// The shift at (`row`, `col`) of a table of `n_cols` columns stored
/// row-major, if the table holds that position.
pub fn get_shift<T: Copy>(shifts: &[T], n_cols: usize, row: usize, col: usize) -> (r: Option<T>)
    requires
        row * n_cols + col <= usize::MAX,
    ensures
        r == (if row * n_cols + col < shifts@.len() {
            Some(shifts@[row * n_cols + col])
        } else {
            None::<T>
        }),
{
    let idx = row * n_cols + col;
    if idx < shifts.len() {
        Some(shifts[idx])
    } else {
        None
    }
}

/// The grid cell whose south-west node is (`row`, `col`), as unsigned indices,
/// if the cell lies inside a grid of `n_rows` rows and `n_cols` columns.
pub fn grid_cell(row: i64, col: i64, n_rows: usize, n_cols: usize) -> (r: Option<(usize, usize)>)
    requires
        !(0 <= row && 0 <= col && ((row as usize) == usize::MAX || ((row as usize) + 1 < n_rows && (
        col as usize) == usize::MAX))),
    ensures
        r == (if row < 0 || col < 0 || (row as usize) + 1 >= n_rows || (col as usize) + 1
            >= n_cols {
            None::<(usize, usize)>
        } else {
            Some((row as usize, col as usize))
        }),
{
    if row < 0 || col < 0 {
        return None;
    }
    let r = row as usize;
    let c = col as usize;
    if r + 1 >= n_rows || c + 1 >= n_cols {
        return None;
    }
    Some((r, c))
}

/// Whether every sub-grid header and every shift record declared from the
/// header at `off` on lies inside the file.
pub open spec fn complete_from(s: Seq<u8>, little_endian: bool, off: int, remaining: nat) -> bool
    decreases remaining,
{
    remaining == 0 || {
        &&& off + 176 <= s.len()
        &&& record_count_at(s, little_endian, off) >= 0
        &&& next_header(s, little_endian, off) <= s.len()
        &&& complete_from(
            s,
            little_endian,
            next_header(s, little_endian, off),
            (remaining - 1) as nat,
        )
    }
}

/// Whether the file holds, whole, every sub-grid and record that it declares.
pub open spec fn is_complete(s: Seq<u8>) -> bool {
    &&& s.len() >= 176
    &&& declared_sub_grids(s) >= 0
    &&& complete_from(s, detects_little_endian(s), 176, declared_sub_grids(s) as nat)
}

proof fn lemma_sub_grids_from_bounded(s: Seq<u8>, little_endian: bool, off: int, remaining: nat)
    ensures
        sub_grids_from(s, little_endian, off, remaining).len() <= remaining,
    decreases remaining,
{
    if remaining > 0 && off + 176 <= s.len() {
        lemma_sub_grids_from_bounded(
            s,
            little_endian,
            next_header(s, little_endian, off),
            (remaining - 1) as nat,
        );
    }
}

/// Reading yields at most as many sub-grids as the overview header declares.
pub proof fn lemma_read_count_bounded(s: Seq<u8>)
    requires
        s.len() >= 176,
        declared_sub_grids(s) >= 0,
    ensures
        grid_of(s).len() <= declared_sub_grids(s),
{
    lemma_sub_grids_from_bounded(s, detects_little_endian(s), 176, declared_sub_grids(s) as nat);
}

proof fn lemma_sub_grid_at_extend(
    s: Seq<u8>,
    t: Seq<u8>,
    little_endian: bool,
    off: int,
)
    requires
        0 <= off,
        off + 176 <= s.len(),
        record_count_at(s, little_endian, off) >= 0,
        next_header(s, little_endian, off) <= s.len(),
    ensures
        record_count_at(s + t, little_endian, off) == record_count_at(s, little_endian, off),
        sub_grid_at(s + t, little_endian, off) == sub_grid_at(s, little_endian, off),
{
    let u = s + t;
    assert(u.subrange(off + 8, off + 16) =~= s.subrange(off + 8, off + 16));
    assert(u.subrange(off + 24, off + 32) =~= s.subrange(off + 24, off + 32));
    let n = records_read(s, little_endian, off);
    assert(records_read(u, little_endian, off) == n);
    assert forall|i: int| 0 <= i < n implies #[trigger] shift_records(u, little_endian, off)[i]
        == shift_records(s, little_endian, off)[i] by {
        assert(off + 180 + 16 * i + 4 <= s.len());
    }
    assert(shift_records(u, little_endian, off) =~= shift_records(s, little_endian, off));
}

proof fn lemma_sub_grids_from_extend(
    s: Seq<u8>,
    t: Seq<u8>,
    little_endian: bool,
    off: int,
    remaining: nat,
)
    requires
        0 <= off,
        complete_from(s, little_endian, off, remaining),
    ensures
        complete_from(s + t, little_endian, off, remaining),
        sub_grids_from(s + t, little_endian, off, remaining) == sub_grids_from(
            s,
            little_endian,
            off,
            remaining,
        ),
    decreases remaining,
{
    if remaining > 0 {
        lemma_sub_grid_at_extend(s, t, little_endian, off);
        let next = next_header(s, little_endian, off);
        assert(next_header(s + t, little_endian, off) == next);
        lemma_sub_grids_from_extend(s, t, little_endian, next, (remaining - 1) as nat);
    }
}

/// Bytes after a file that holds all it declares are not read: appending
/// them leaves the file complete and its sub-grids unchanged.
pub proof fn lemma_trailing_bytes_ignored(s: Seq<u8>, t: Seq<u8>)
    requires
        is_complete(s),
    ensures
        is_complete(s + t),
        grid_of(s + t) == grid_of(s),
{
    let u = s + t;
    assert(record_count(u, true) == record_count(s, true));
    assert(record_count(u, false) == record_count(s, false));
    assert(detects_little_endian(u) == detects_little_endian(s));
    assert(declared_sub_grids(u) == declared_sub_grids(s));
    lemma_sub_grids_from_extend(
        s,
        t,
        detects_little_endian(s),
        176,
        declared_sub_grids(s) as nat,
    );
}

/// Bytes `i..i+4` of `b` are those of `a` in reverse order.
pub open spec fn mirrored32(a: Seq<u8>, b: Seq<u8>, i: int) -> bool {
    forall|k: int| 0 <= k < 4 ==> #[trigger] b[i + k] == a[i + 3 - k]
}

/// Bytes `i..i+8` of `b` are those of `a` in reverse order.
pub open spec fn mirrored64(a: Seq<u8>, b: Seq<u8>, i: int) -> bool {
    forall|k: int| 0 <= k < 8 ==> #[trigger] b[i + k] == a[i + 7 - k]
}

/// The two values read of shift record `r` of the sub-grid at `off` are
/// stored in opposite byte orders in `a` and `b`.
pub open spec fn record_mirrored(a: Seq<u8>, b: Seq<u8>, off: int, r: int) -> bool {
    mirrored32(a, b, off + 176 + 16 * r) && mirrored32(a, b, off + 180 + 16 * r)
}

/// The sub-grid header at `off` and the records read after it hold the same
/// names in `a` and `b`, and the same numbers in opposite byte orders.
pub open spec fn header_mirrored(a: Seq<u8>, b: Seq<u8>, off: int) -> bool {
    &&& a.subrange(off + 8, off + 16) == b.subrange(off + 8, off + 16)
    &&& a.subrange(off + 24, off + 32) == b.subrange(off + 24, off + 32)
    &&& mirrored64(a, b, off + 72)
    &&& mirrored64(a, b, off + 88)
    &&& mirrored64(a, b, off + 104)
    &&& mirrored64(a, b, off + 120)
    &&& mirrored64(a, b, off + 136)
    &&& mirrored64(a, b, off + 152)
    &&& mirrored32(a, b, off + 168)
    &&& forall|r: int| 0 <= r < records_read(a, true, off) ==> #[trigger] record_mirrored(a, b, off, r)
}

/// Every sub-grid read of `a` from the header at `off` on is mirrored in `b`.
pub open spec fn sub_grids_mirrored(a: Seq<u8>, b: Seq<u8>, off: int, remaining: nat) -> bool
    decreases remaining,
{
    remaining == 0 || off + 176 > a.len() || {
        &&& header_mirrored(a, b, off)
        &&& sub_grids_mirrored(a, b, next_header(a, true, off), (remaining - 1) as nat)
    }
}

/// `a` is a little-endian NTv2 file (record count 11) and `b` the same file
/// written big-endian: equal length, the same names, every number read
/// stored with its bytes reversed.
pub open spec fn byte_order_images(a: Seq<u8>, b: Seq<u8>) -> bool {
    &&& a.len() == b.len()
    &&& a.len() >= 176
    &&& record_count(a, true) == 11
    &&& mirrored32(a, b, 8)
    &&& mirrored32(a, b, 40)
    &&& sub_grids_mirrored(a, b, 176, i32_at(a, 40, true) as nat)
}

proof fn lemma_sub_grid_mirrored(a: Seq<u8>, b: Seq<u8>, off: int)
    requires
        a.len() == b.len(),
        0 <= off,
        off + 176 <= a.len(),
        record_count_at(a, true, off) >= 0,
        header_mirrored(a, b, off),
    ensures
        record_count_at(b, false, off) == record_count_at(a, true, off),
        next_header(b, false, off) == next_header(a, true, off),
        sub_grid_at(b, false, off) == sub_grid_at(a, true, off),
{
    lemma_byte_order_mirror_u32(a, off + 168, b, off + 168);
    lemma_byte_order_mirror_u64(a, off + 72, b, off + 72);
    lemma_byte_order_mirror_u64(a, off + 88, b, off + 88);
    lemma_byte_order_mirror_u64(a, off + 104, b, off + 104);
    lemma_byte_order_mirror_u64(a, off + 120, b, off + 120);
    lemma_byte_order_mirror_u64(a, off + 136, b, off + 136);
    lemma_byte_order_mirror_u64(a, off + 152, b, off + 152);
    let n = records_read(a, true, off);
    assert(records_read(b, false, off) == n);
    assert forall|r: int| 0 <= r < n implies #[trigger] shift_records(b, false, off)[r]
        == shift_records(a, true, off)[r] by {
        assert(record_mirrored(a, b, off, r));
        assert(off + 176 + 16 * r + 16 <= a.len());
        lemma_byte_order_mirror_u32(a, off + 176 + 16 * r, b, off + 176 + 16 * r);
        lemma_byte_order_mirror_u32(a, off + 180 + 16 * r, b, off + 180 + 16 * r);
    }
    assert(shift_records(b, false, off) =~= shift_records(a, true, off));
}

proof fn lemma_sub_grids_mirrored(a: Seq<u8>, b: Seq<u8>, off: int, remaining: nat)
    requires
        a.len() == b.len(),
        0 <= off,
        sub_grids_mirrored(a, b, off, remaining),
        !negative_record_count(a, true, off, remaining),
    ensures
        !negative_record_count(b, false, off, remaining),
        sub_grids_from(b, false, off, remaining) == sub_grids_from(a, true, off, remaining),
    decreases remaining,
{
    if remaining > 0 && off + 176 <= a.len() {
        lemma_sub_grid_mirrored(a, b, off);
        lemma_sub_grids_mirrored(a, b, next_header(a, true, off), (remaining - 1) as nat);
    }
}

/// A little-endian file and its big-endian image read alike: the second is
/// readable when the first is, and both give the same sub-grids.
pub proof fn lemma_byte_orders_read_alike(a: Seq<u8>, b: Seq<u8>)
    requires
        byte_order_images(a, b),
        !read_aborts(a),
    ensures
        detects_little_endian(a),
        !detects_little_endian(b),
        !read_aborts(b),
        grid_of(b) == grid_of(a),
{
    lemma_byte_order_mirror_u32(a, 8, b, 8);
    lemma_byte_order_mirror_u32(a, 40, b, 40);
    assert(a[8] == 11 && a[9] == 0 && a[10] == 0 && a[11] == 0);
    assert(record_count(b, false) == 11);
    assert(record_count(b, true) == 11 * 16777216);
    assert(declared_sub_grids(b) == declared_sub_grids(a));
    lemma_sub_grids_mirrored(a, b, 176, i32_at(a, 40, true) as nat);
}

/// Where the header `i` steps after the one at `off` begins.
pub open spec fn header_offset_from(s: Seq<u8>, little_endian: bool, off: int, i: nat) -> int
    decreases i,
{
    if i == 0 {
        off
    } else {
        header_offset_from(s, little_endian, next_header(s, little_endian, off), (i - 1) as nat)
    }
}

/// Where the header of sub-grid `i` of the file begins.
pub open spec fn header_offset(s: Seq<u8>, i: nat) -> int {
    header_offset_from(s, detects_little_endian(s), 176, i)
}

/// `g` is `h` cut to the records held whole in `room` bytes after its header:
/// the same names, limits and increments, and the first
/// `min(h.shifts.len(), room / 16)` shifts.
pub open spec fn truncated_sub_grid(g: SubGridModel, h: SubGridModel, room: int) -> bool {
    &&& g.name == h.name
    &&& g.parent == h.parent
    &&& g.lat_min == h.lat_min
    &&& g.lat_max == h.lat_max
    &&& g.lon_min == h.lon_min
    &&& g.lon_max == h.lon_max
    &&& g.lat_inc == h.lat_inc
    &&& g.lon_inc == h.lon_inc
    &&& g.shifts.len() == (if h.shifts.len() <= room / 16 {
        h.shifts.len() as int
    } else {
        room / 16
    })
    &&& g.shifts == h.shifts.subrange(0, g.shifts.len() as int)
}

proof fn lemma_sub_grid_at_prefix(f: Seq<u8>, p: Seq<u8>, little_endian: bool, off: int, n: int)
    requires
        0 <= off,
        off + 176 <= n <= f.len(),
        p == f.subrange(0, n),
        record_count_at(f, little_endian, off) >= 0,
        next_header(f, little_endian, off) <= f.len(),
    ensures
        record_count_at(p, little_endian, off) == record_count_at(f, little_endian, off),
        next_header(p, little_endian, off) == next_header(f, little_endian, off),
        truncated_sub_grid(
            sub_grid_at(p, little_endian, off),
            sub_grid_at(f, little_endian, off),
            n - off - 176,
        ),
{
    assert(p.subrange(off + 8, off + 16) =~= f.subrange(off + 8, off + 16));
    assert(p.subrange(off + 24, off + 32) =~= f.subrange(off + 24, off + 32));
    let g = sub_grid_at(p, little_endian, off);
    let h = sub_grid_at(f, little_endian, off);
    assert(records_read(f, little_endian, off) == record_count_at(f, little_endian, off));
    let m = records_read(p, little_endian, off);
    assert forall|r: int| 0 <= r < m implies #[trigger] g.shifts[r] == h.shifts[r] by {
        assert(off + 176 + 16 * r + 16 <= n);
    }
    assert(g.shifts =~= h.shifts.subrange(0, m));
}

proof fn lemma_offsets_grow(f: Seq<u8>, little_endian: bool, off: int, remaining: nat, i: nat)
    requires
        complete_from(f, little_endian, off, remaining),
        i < remaining,
    ensures
        header_offset_from(f, little_endian, off, i) >= off,
    decreases i,
{
    if i > 0 {
        lemma_offsets_grow(
            f,
            little_endian,
            next_header(f, little_endian, off),
            (remaining - 1) as nat,
            (i - 1) as nat,
        );
    }
}

proof fn lemma_prefix_walk(
    f: Seq<u8>,
    p: Seq<u8>,
    little_endian: bool,
    off: int,
    remaining: nat,
    n: int,
)
    requires
        0 <= off,
        0 <= n <= f.len(),
        p == f.subrange(0, n),
        complete_from(f, little_endian, off, remaining),
    ensures
        !negative_record_count(p, little_endian, off, remaining),
        sub_grids_from(p, little_endian, off, remaining).len() <= sub_grids_from(
            f,
            little_endian,
            off,
            remaining,
        ).len(),
        forall|i: int|
            #![trigger header_offset_from(f, little_endian, off, i as nat)]
            0 <= i < sub_grids_from(f, little_endian, off, remaining).len() ==> (i
                < sub_grids_from(p, little_endian, off, remaining).len() <==> header_offset_from(
                f,
                little_endian,
                off,
                i as nat,
            ) + 176 <= n),
        forall|i: int|
            0 <= i < sub_grids_from(p, little_endian, off, remaining).len() ==> truncated_sub_grid(
                #[trigger] sub_grids_from(p, little_endian, off, remaining)[i],
                sub_grids_from(f, little_endian, off, remaining)[i],
                n - header_offset_from(f, little_endian, off, i as nat) - 176,
            ),
    decreases remaining,
{
    let gp = sub_grids_from(p, little_endian, off, remaining);
    let gf = sub_grids_from(f, little_endian, off, remaining);
    if remaining == 0 {
    } else if off + 176 > n {
        lemma_sub_grids_from_bounded(f, little_endian, off, remaining);
        assert forall|i: int|
            #![trigger header_offset_from(f, little_endian, off, i as nat)]
            0 <= i < gf.len() implies !(header_offset_from(
            f,
            little_endian,
            off,
            i as nat,
        ) + 176 <= n) by {
            lemma_offsets_grow(f, little_endian, off, remaining, i as nat);
        }
    } else {
        lemma_sub_grid_at_prefix(f, p, little_endian, off, n);
        let next = next_header(f, little_endian, off);
        lemma_prefix_walk(f, p, little_endian, next, (remaining - 1) as nat, n);
        let tp = sub_grids_from(p, little_endian, next, (remaining - 1) as nat);
        let tf = sub_grids_from(f, little_endian, next, (remaining - 1) as nat);
        assert(gp == seq![sub_grid_at(p, little_endian, off)] + tp);
        assert(gf == seq![sub_grid_at(f, little_endian, off)] + tf);
        assert forall|i: int|
            #![trigger header_offset_from(f, little_endian, off, i as nat)]
            0 <= i < gf.len() implies (i < gp.len() <==> header_offset_from(
            f,
            little_endian,
            off,
            i as nat,
        ) + 176 <= n) by {
            if i > 0 {
                assert(header_offset_from(f, little_endian, off, i as nat) == header_offset_from(
                    f,
                    little_endian,
                    next,
                    (i - 1) as nat,
                ));
            }
        }
        assert forall|i: int| 0 <= i < gp.len() implies truncated_sub_grid(
            #[trigger] gp[i],
            gf[i],
            n - header_offset_from(f, little_endian, off, i as nat) - 176,
        ) by {
            if i > 0 {
                assert(gp[i] == tp[i - 1]);
                assert(gf[i] == tf[i - 1]);
                assert(header_offset_from(f, little_endian, off, i as nat) == header_offset_from(
                    f,
                    little_endian,
                    next,
                    (i - 1) as nat,
                ));
            }
        }
    }
}

/// A prefix of a complete file, at least as long as the overview header, is
/// readable, and reads as the file does cut short: exactly the sub-grids whose
/// header it holds whole, each with the records it holds whole.
pub proof fn lemma_truncated_file_reads_prefix(f: Seq<u8>, n: int)
    requires
        is_complete(f),
        !read_aborts(f),
        176 <= n <= f.len(),
    ensures
        !read_aborts(f.subrange(0, n)),
        grid_of(f.subrange(0, n)).len() <= grid_of(f).len(),
        forall|i: int|
            #![trigger header_offset(f, i as nat)]
            0 <= i < grid_of(f).len() ==> (i < grid_of(f.subrange(0, n)).len() <==> header_offset(
                f,
                i as nat,
            ) + 176 <= n),
        forall|i: int|
            0 <= i < grid_of(f.subrange(0, n)).len() ==> truncated_sub_grid(
                #[trigger] grid_of(f.subrange(0, n))[i],
                grid_of(f)[i],
                n - header_offset(f, i as nat) - 176,
            ),
{
    let p = f.subrange(0, n);
    assert(record_count(p, true) == record_count(f, true));
    assert(record_count(p, false) == record_count(f, false));
    assert(detects_little_endian(p) == detects_little_endian(f));
    assert(declared_sub_grids(p) == declared_sub_grids(f));
    lemma_prefix_walk(f, p, detects_little_endian(f), 176, declared_sub_grids(f) as nat, n);
}

/// Sub-grid `i` read from the header at `off` on is the one whose header
/// begins `i` steps on, and that header lies whole in the file with a
/// non-negative record count.
spec fn walk_entry(s: Seq<u8>, little_endian: bool, off: int, remaining: nat, i: int) -> bool {
    let h = header_offset_from(s, little_endian, off, i as nat);
    &&& sub_grids_from(s, little_endian, off, remaining)[i] == sub_grid_at(s, little_endian, h)
    &&& 0 <= h
    &&& h + 176 <= s.len()
    &&& record_count_at(s, little_endian, h) >= 0
}

proof fn lemma_walk_indexed(s: Seq<u8>, little_endian: bool, off: int, remaining: nat)
    requires
        0 <= off,
        !negative_record_count(s, little_endian, off, remaining),
    ensures
        sub_grids_from(s, little_endian, off, remaining).len() <= remaining,
        sub_grids_from(s, little_endian, off, remaining).len() == remaining || header_offset_from(
            s,
            little_endian,
            off,
            sub_grids_from(s, little_endian, off, remaining).len(),
        ) + 176 > s.len(),
        forall|i: int|
            #![trigger sub_grids_from(s, little_endian, off, remaining)[i]]
            0 <= i < sub_grids_from(s, little_endian, off, remaining).len() ==> walk_entry(
                s,
                little_endian,
                off,
                remaining,
                i,
            ),
    decreases remaining,
{
    if remaining > 0 && off + 176 <= s.len() {
        let next = next_header(s, little_endian, off);
        lemma_walk_indexed(s, little_endian, next, (remaining - 1) as nat);
        let g = sub_grids_from(s, little_endian, off, remaining);
        let t = sub_grids_from(s, little_endian, next, (remaining - 1) as nat);
        assert(g == seq![sub_grid_at(s, little_endian, off)] + t);
        assert(header_offset_from(s, little_endian, off, (t.len() + 1) as nat)
            == header_offset_from(s, little_endian, next, t.len()));
        assert forall|i: int| 0 <= i < g.len() implies #[trigger] walk_entry(
            s,
            little_endian,
            off,
            remaining,
            i,
        ) by {
            if i > 0 {
                assert(g[i] == t[i - 1]);
                assert(header_offset_from(s, little_endian, off, i as nat) == header_offset_from(
                    s,
                    little_endian,
                    next,
                    (i - 1) as nat,
                ));
            } else {
                assert(header_offset_from(s, little_endian, off, 0) == off);
                assert(record_count_at(s, little_endian, off) >= 0);
            }
        }
    } else {
        assert(sub_grids_from(s, little_endian, off, remaining).len() == 0);
        assert(header_offset_from(s, little_endian, off, 0) == off);
    }
}

proof fn lemma_offset_step(s: Seq<u8>, little_endian: bool, off: int, i: nat)
    ensures
        header_offset_from(s, little_endian, off, i + 1) == next_header(
            s,
            little_endian,
            header_offset_from(s, little_endian, off, i),
        ),
    decreases i,
{
    let next = next_header(s, little_endian, off);
    if i > 0 {
        lemma_offset_step(s, little_endian, next, (i - 1) as nat);
        assert(header_offset_from(s, little_endian, off, i + 1) == header_offset_from(
            s,
            little_endian,
            next,
            i,
        ));
        assert(header_offset_from(s, little_endian, off, i) == header_offset_from(
            s,
            little_endian,
            next,
            (i - 1) as nat,
        ));
    } else {
        assert(header_offset_from(s, little_endian, off, 1) == header_offset_from(
            s,
            little_endian,
            next,
            0,
        ));
        assert(header_offset_from(s, little_endian, off, 0) == off);
    }
}

/// What reading gives, field by field, in terms of the file's bytes: sub-grid
/// 0 has its header right after the overview, each next header follows the
/// previous one's records, the header holds whole; its name and parent are
/// the text of the eight bytes at +8 and +24, its limits and increments the
/// 64-bit values at +72, +88, +104, +120, +136 and +152, its records the
/// pairs of 32-bit values at the start of each sixteen bytes after the
/// header, as many as the count at +168 declares and the file holds whole.
pub proof fn lemma_read_fields(s: Seq<u8>, i: int)
    requires
        s.len() >= 176,
        !read_aborts(s),
        0 <= i < grid_of(s).len(),
    ensures
        ({
            let le = detects_little_endian(s);
            let off = header_offset(s, i as nat);
            let g = grid_of(s)[i];
            let count = i32_at(s, off + 168, le);
            let room = (s.len() - off - 176) / 16;
            &&& header_offset(s, 0) == 176
            &&& 176 <= off
            &&& off + 176 <= s.len()
            &&& i + 1 < grid_of(s).len() ==> header_offset(s, (i + 1) as nat) == off + 176 + 16
                * count
            &&& g.name == field_text(utf8_lossy(s.subrange(off + 8, off + 16)))
            &&& g.parent == field_text(utf8_lossy(s.subrange(off + 24, off + 32)))
            &&& g.lat_min == u64_at(s, off + 72, le)
            &&& g.lat_max == u64_at(s, off + 88, le)
            &&& g.lon_min == u64_at(s, off + 104, le)
            &&& g.lon_max == u64_at(s, off + 120, le)
            &&& g.lat_inc == u64_at(s, off + 136, le)
            &&& g.lon_inc == u64_at(s, off + 152, le)
            &&& 0 <= count
            &&& g.shifts.len() == (if count <= room {
                count
            } else {
                room
            })
            &&& forall|r: int|
                0 <= r < g.shifts.len() ==> #[trigger] g.shifts[r] == (
                    u32_at(s, off + 176 + 16 * r, le) as u32,
                    u32_at(s, off + 180 + 16 * r, le) as u32,
                )
        }),
{
    let le = detects_little_endian(s);
    let n = declared_sub_grids(s) as nat;
    lemma_walk_indexed(s, le, 176, n);
    let off = header_offset(s, i as nat);
    lemma_offset_step(s, le, 176, i as nat);
    lemma_offsets_at_least(s, le, 176, n, i as nat);
    let g = grid_of(s)[i];
    assert(g == sub_grid_at(s, le, off));
    if i + 1 < grid_of(s).len() {
        assert(grid_of(s)[i + 1] == grid_of(s)[i + 1]);
    }
}

proof fn lemma_offsets_at_least(s: Seq<u8>, little_endian: bool, off: int, remaining: nat, i: nat)
    requires
        0 <= off,
        !negative_record_count(s, little_endian, off, remaining),
        i < sub_grids_from(s, little_endian, off, remaining).len(),
    ensures
        header_offset_from(s, little_endian, off, i) >= off,
    decreases i,
{
    if i > 0 {
        let next = next_header(s, little_endian, off);
        assert(sub_grids_from(s, little_endian, off, remaining) == seq![
            sub_grid_at(s, little_endian, off),
        ] + sub_grids_from(s, little_endian, next, (remaining - 1) as nat));
        lemma_offsets_at_least(s, little_endian, next, (remaining - 1) as nat, (i - 1) as nat);
    }
}

/// Reading stops only at the declared number of sub-grids or at a header
/// that the file does not hold whole.
pub proof fn lemma_read_stops(s: Seq<u8>)
    requires
        s.len() >= 176,
        !read_aborts(s),
    ensures
        grid_of(s).len() <= i32_at(s, 40, detects_little_endian(s)),
        grid_of(s).len() == i32_at(s, 40, detects_little_endian(s)) || header_offset(
            s,
            grid_of(s).len(),
        ) + 176 > s.len(),
{
    lemma_walk_indexed(s, detects_little_endian(s), 176, declared_sub_grids(s) as nat);
}

proof fn lemma_complete_walk(s: Seq<u8>, little_endian: bool, off: int, remaining: nat)
    requires
        0 <= off,
        complete_from(s, little_endian, off, remaining),
    ensures
        sub_grids_from(s, little_endian, off, remaining).len() == remaining,
        forall|i: int|
            0 <= i < remaining ==> (#[trigger] sub_grids_from(s, little_endian, off, remaining)[
                i]).shifts.len() == i32_at(
                s,
                header_offset_from(s, little_endian, off, i as nat) + 168,
                little_endian,
            ),
    decreases remaining,
{
    if remaining > 0 {
        let next = next_header(s, little_endian, off);
        lemma_complete_walk(s, little_endian, next, (remaining - 1) as nat);
        let g = sub_grids_from(s, little_endian, off, remaining);
        let t = sub_grids_from(s, little_endian, next, (remaining - 1) as nat);
        assert(g == seq![sub_grid_at(s, little_endian, off)] + t);
        assert(records_read(s, little_endian, off) == record_count_at(s, little_endian, off));
        assert forall|i: int| 0 <= i < remaining implies (#[trigger] g[i]).shifts.len() == i32_at(
            s,
            header_offset_from(s, little_endian, off, i as nat) + 168,
            little_endian,
        ) by {
            if i > 0 {
                assert(g[i] == t[i - 1]);
                assert(header_offset_from(s, little_endian, off, i as nat) == header_offset_from(
                    s,
                    little_endian,
                    next,
                    (i - 1) as nat,
                ));
            }
        }
    }
}

/// A complete file reads as all the sub-grids it declares, each with exactly
/// the number of shift records its header declares.
pub proof fn lemma_complete_file_keeps_declared_records(s: Seq<u8>)
    requires
        is_complete(s),
    ensures
        grid_of(s).len() == i32_at(s, 40, detects_little_endian(s)),
        forall|i: int|
            0 <= i < grid_of(s).len() ==> (#[trigger] grid_of(s)[i]).shifts.len() == i32_at(
                s,
                header_offset(s, i as nat) + 168,
                detects_little_endian(s),
            ),
{
    lemma_complete_walk(s, detects_little_endian(s), 176, declared_sub_grids(s) as nat);
}

} // verus!
