//! The compute-device strategy: the flat upload layout, the parameter
//! block, the two-dimensional dispatch grid with its index recovery, what
//! one invocation computes, and the byte form of what is uploaded and
//! read back.

use vstd::prelude::*;
use vstd::arithmetic::div_mod::*;
use crate::binary32::{product, sum};
use crate::mixer::{factor_at, master, master_len, max_len, mix_prefix, mixed};
use crate::container::{le32, put_le32, read_le32};
use crate::sample::{sample_at, Track};

verus! {

/// Invocations per workgroup.
pub const WORKGROUP_SIZE: u32 = 256;

/// Workgroups along the first grid dimension, well under the cap of
/// 65535 that a device guarantees.
pub const X_GROUPS: u32 = 16384;

/// Invocations in one row of the grid.
pub const ROW: u32 = 4_194_304;

/// The number of workgroups dispatched along each of the two dimensions
/// in use.
#[derive(Clone, Copy, Debug, PartialEq, Eq)]
pub struct DispatchGrid {
    pub x_groups: u32,
    pub y_groups: u32,
}

/// Workgroups needed for one invocation per output sample.
pub open spec fn groups_needed(buffer_len: nat) -> nat {
    (buffer_len + 255) / 256
}

/// Grid rows needed to hold that many workgroups.
pub open spec fn rows_needed(buffer_len: nat) -> nat {
    (groups_needed(buffer_len) + 16383) / 16384
}

/// The output index that an invocation owns.
pub open spec fn flat_index(global_x: int, global_y: int, x_groups: int) -> int {
    global_y * (x_groups * 256) + global_x
}

/// Sizes the grid for `buffer_len` output samples: a fixed width and as
/// many rows as it takes.
pub fn dispatch_grid(buffer_len: u32) -> (grid: DispatchGrid)
    ensures
        grid.x_groups == X_GROUPS,
        grid.y_groups == rows_needed(buffer_len as nat),
        grid.y_groups <= 1024,
        grid.y_groups * ROW >= buffer_len,
        buffer_len > 0 ==> (grid.y_groups - 1) * ROW < buffer_len,
{
    let total_workgroups: u64 = (buffer_len as u64 + 255) / 256;
    let y_groups: u64 = (total_workgroups + 16383) / 16384;
    DispatchGrid { x_groups: X_GROUPS, y_groups: y_groups as u32 }
}

/// Recovers the output index of the invocation at `(global_x, global_y)`
/// in a grid `x_groups` workgroups wide.
pub fn invocation_index(global_x: u32, global_y: u32, x_groups: u32) -> (idx: u64)
    requires
        x_groups <= 65535,
    ensures
        idx == flat_index(global_x as int, global_y as int, x_groups as int),
{
    let width: u64 = x_groups as u64 * 256;
    assert(global_y * width <= 0xffff_ffff * 0xff_ff00) by (nonlinear_arith)
        requires
            global_y <= 0xffff_ffff,
            width <= 0xff_ff00,
    ;
    global_y as u64 * width + global_x as u64
}

/// Every output index belongs to exactly one invocation of the grid that
/// `dispatch_grid` gives: the one that `idx % ROW` and `idx / ROW` name.
pub proof fn lemma_grid_covers_once(buffer_len: nat, idx: int)
    requires
        0 <= idx < buffer_len,
    ensures
        0 <= idx % (ROW as int) < ROW,
        0 <= idx / (ROW as int) < rows_needed(buffer_len),
        flat_index(idx % (ROW as int), idx / (ROW as int), X_GROUPS as int) == idx,
        forall|x: int, y: int|
            0 <= x < ROW && 0 <= y && #[trigger] flat_index(x, y, X_GROUPS as int) == idx ==> x
                == idx % (ROW as int) && y == idx / (ROW as int),
{
    let row = ROW as int;
    assert(X_GROUPS as int * 256 == row);
    lemma_fundamental_div_mod(idx, row);
    assert(row * (idx / row) == (idx / row) * row) by (nonlinear_arith);
    lemma_rows_cover(buffer_len);
    if idx / row >= rows_needed(buffer_len) {
        assert((idx / row) * row >= rows_needed(buffer_len) * row) by (nonlinear_arith)
            requires
                idx / row >= rows_needed(buffer_len),
                row > 0,
        ;
    }
    assert forall|x: int, y: int|
        0 <= x < ROW && 0 <= y && #[trigger] flat_index(x, y, X_GROUPS as int)
            == idx implies x == idx % row && y == idx / row by {
        assert(y * (X_GROUPS as int * 256) == row * y) by (nonlinear_arith)
            requires
                X_GROUPS as int * 256 == row,
        ;
        lemma_fundamental_div_mod_converse(idx, row, y, x);
    }
}

/// The rows of the grid hold an invocation for every output index, and
/// the last row is needed.
pub proof fn lemma_rows_cover(buffer_len: nat)
    ensures
        rows_needed(buffer_len) * 4_194_304 >= buffer_len,
        buffer_len > 0 ==> (rows_needed(buffer_len) - 1) * 4_194_304 < buffer_len,
{
    let groups = groups_needed(buffer_len);
    assert(groups * 256 >= buffer_len);
    assert(buffer_len > 0 ==> (groups - 1) * 256 < buffer_len);
    let rows = rows_needed(buffer_len);
    assert(rows * 16384 >= groups);
    assert(groups > 0 ==> (rows - 1) * 16384 < groups);
}

/// The upload layout: one slot of `slot` samples for each track, in track
/// order, a shorter track followed by silence to the end of its slot.
pub open spec fn flat_layout(tracks: Seq<Track>, slot: nat) -> Seq<u32> {
    Seq::new(tracks.len() * slot, |j: int| sample_at(tracks[j / (slot as int)]@, j % (slot as int)))
}

/// Position `t * slot + i` lies in slot `t` at offset `i`.
proof fn lemma_slot_position(t: nat, i: nat, slot: nat, count: nat)
    requires
        t < count,
        i < slot,
    ensures
        t * slot + i < count * slot,
        ((t * slot + i) as int) / (slot as int) == t,
        ((t * slot + i) as int) % (slot as int) == i,
{
    assert(t * slot + i < count * slot) by (nonlinear_arith)
        requires
            t < count,
            i < slot,
    ;
    assert(t * slot == slot * t) by (nonlinear_arith);
    lemma_fundamental_div_mod_converse((t * slot + i) as int, slot as int, t as int, i as int);
}

/// Copies all tracks into one contiguous buffer of `slot` samples each.
pub fn flatten(tracks: &Vec<Track>, slot: usize) -> (flat: Vec<u32>)
    requires
        tracks.len() * slot <= usize::MAX,
    ensures
        flat@ == flat_layout(tracks@, slot as nat),
{
    let mut flat: Vec<u32> = Vec::new();
    let mut t: usize = 0;
    while t < tracks.len()
        invariant
            t <= tracks.len(),
            tracks.len() * slot <= usize::MAX,
            flat.len() == t * slot,
            forall|j: int| 0 <= j < flat.len() ==> flat@[j] == flat_layout(tracks@, slot as nat)[j],
        decreases tracks.len() - t,
    {
        let mut i: usize = 0;
        while i < slot
            invariant
                t < tracks.len(),
                i <= slot,
                tracks.len() * slot <= usize::MAX,
                flat.len() == t * slot + i,
                forall|j: int|
                    0 <= j < flat.len() ==> flat@[j] == flat_layout(tracks@, slot as nat)[j],
            decreases slot - i,
        {
            proof {
                lemma_slot_position(t as nat, i as nat, slot as nat, tracks.len() as nat);
            }
            flat.push(tracks[t].sample(i));
            i = i + 1;
        }
        proof {
            assert(t * slot + slot == (t + 1) * slot) by (nonlinear_arith);
        }
        t = t + 1;
    }
    assert(flat@ =~= flat_layout(tracks@, slot as nat));
    flat
}

/// The parameter block: the track count and the slot length, each as a
/// little-endian 32-bit number.
pub fn param_block(num_tracks: u32, buffer_len: u32) -> (block: Vec<u8>)
    ensures
        block@ == le32(num_tracks) + le32(buffer_len),
{
    let mut block: Vec<u8> = Vec::new();
    put_le32(&mut block, num_tracks);
    put_le32(&mut block, buffer_len);
    block
}

/// The bytes of a sequence of words, each little-endian, in order.
pub open spec fn words_le(words: Seq<u32>) -> Seq<u8> {
    Seq::new(4 * words.len(), |j: int| le32(words[j / 4])[j % 4])
}

/// Word `i` of a byte buffer read as little-endian 32-bit words.
pub open spec fn word_at(bytes: Seq<u8>, i: int) -> u32 {
    read_le32(bytes, 4 * i) as u32
}

/// The whole words of a byte buffer; up to three trailing bytes are
/// ignored.
pub open spec fn words_of(bytes: Seq<u8>) -> Seq<u32> {
    Seq::new(bytes.len() / 4, |i: int| word_at(bytes, i))
}

/// Serialises words for upload.
pub fn words_to_bytes(words: &Vec<u32>) -> (bytes: Vec<u8>)
    ensures
        bytes@ == words_le(words@),
{
    let mut bytes: Vec<u8> = Vec::new();
    let mut i: usize = 0;
    while i < words.len()
        invariant
            i <= words.len(),
            bytes.len() == 4 * i,
            forall|j: int| 0 <= j < 4 * i ==> bytes@[j] == words_le(words@)[j],
        decreases words.len() - i,
    {
        let ghost before = bytes@;
        put_le32(&mut bytes, words[i]);
        proof {
            assert forall|j: int| 0 <= j < 4 * (i + 1) implies bytes@[j] == words_le(words@)[j] by {
                if j < 4 * i {
                    assert(bytes@[j] == before[j]);
                } else {
                    assert(j / 4 == i as int);
                    assert(bytes@[j] == le32(words@[i as int])[j - 4 * i]);
                }
            }
        }
        i = i + 1;
    }
    assert(bytes@ =~= words_le(words@));
    bytes
}

/// Reads staged bytes as little-endian 32-bit words.
pub fn bytes_to_words(bytes: &Vec<u8>) -> (words: Vec<u32>)
    ensures
        words@ == words_of(bytes@),
{
    let count: usize = bytes.len() / 4;
    let mut words: Vec<u32> = Vec::new();
    let mut i: usize = 0;
    while i < count
        invariant
            i <= count,
            count == bytes.len() / 4,
            words.len() == i,
            forall|k: int| 0 <= k < i ==> words@[k] == word_at(bytes@, k),
        decreases count - i,
    {
        let at: usize = 4 * i;
        let word: u32 = bytes[at] as u32 + 256 * (bytes[at + 1] as u32) + 65536 * (bytes[at
            + 2] as u32) + 16777216 * (bytes[at + 3] as u32);
        words.push(word);
        i = i + 1;
    }
    assert(words@ =~= words_of(bytes@));
    words
}

/// Reading back what was serialised gives the words again.
pub proof fn lemma_words_round_trip(words: Seq<u32>)
    ensures
        words_of(words_le(words)) == words,
{
    let bytes = words_le(words);
    assert forall|i: int| 0 <= i < words.len() implies word_at(bytes, i) == words[i] by {
        let w = words[i];
        assert(bytes[4 * i] == le32(w)[0]);
        assert(bytes[4 * i + 1] == le32(w)[1]);
        assert(bytes[4 * i + 2] == le32(w)[2]);
        assert(bytes[4 * i + 3] == le32(w)[3]);
    }
    assert(words_of(bytes) =~= words);
}

/// What the invocation for output index `idx` has added up after the
/// first `k` tracks: each track's sample from its slot of the flat
/// layout times the track's factor, in track order.
pub open spec fn kernel_prefix(
    all_samples: Seq<u32>,
    volumes: Seq<u32>,
    buffer_len: int,
    idx: int,
    k: nat,
) -> u32
    decreases k,
{
    if k == 0 {
        0
    } else {
        sum(
            kernel_prefix(all_samples, volumes, buffer_len, idx, (k - 1) as nat),
            product(all_samples[(k - 1) * buffer_len + idx], volumes[k - 1]),
        )
    }
}

/// Position `t * buffer_len + idx` lies inside `num_tracks` slots.
proof fn lemma_slot_bound(t: nat, idx: nat, buffer_len: nat, num_tracks: nat)
    by (nonlinear_arith)
    requires
        t < num_tracks,
        idx < buffer_len,
    ensures
        t * buffer_len + idx < num_tracks * buffer_len,
{
}

/// The body of one invocation: it recovers its output index, does
/// nothing if that lies past the buffer, and otherwise writes the sum of
/// all tracks' weighted samples at that index.
pub fn invoke(
    num_tracks: u32,
    buffer_len: u32,
    volumes: &Vec<u32>,
    all_samples: &Vec<u32>,
    output: &mut Vec<u32>,
    global_x: u32,
    global_y: u32,
    x_groups: u32,
)
    requires
        x_groups <= 65535,
        volumes.len() >= num_tracks,
        all_samples.len() >= num_tracks * buffer_len,
        old(output).len() == buffer_len,
    ensures
        final(output)@ == (if flat_index(global_x as int, global_y as int, x_groups as int)
            < buffer_len {
            old(output)@.update(
                flat_index(global_x as int, global_y as int, x_groups as int),
                kernel_prefix(
                    all_samples@,
                    volumes@,
                    buffer_len as int,
                    flat_index(global_x as int, global_y as int, x_groups as int),
                    num_tracks as nat,
                ),
            )
        } else {
            old(output)@
        }),
{
    let wide: u64 = invocation_index(global_x, global_y, x_groups);
    if wide >= buffer_len as u64 {
        return ;
    }
    let idx: usize = wide as usize;
    let mut mixed: u32 = 0;
    let mut t: u32 = 0;
    while t < num_tracks
        invariant
            t <= num_tracks,
            idx < buffer_len,
            volumes.len() >= num_tracks,
            all_samples.len() >= num_tracks * buffer_len,
            mixed == kernel_prefix(all_samples@, volumes@, buffer_len as int, idx as int, t as nat),
        decreases num_tracks - t,
    {
        proof {
            lemma_slot_bound(t as nat, idx as nat, buffer_len as nat, num_tracks as nat);
        }
        let at: usize = t as usize * buffer_len as usize + idx;
        let part = crate::binary32::mul(all_samples[at], volumes[t as usize]);
        mixed = crate::binary32::add(mixed, part);
        t = t + 1;
    }
    output.set(idx, mixed);
}

/// Everything one mixing pass hands to the device: the three upload
/// buffers in byte form, the size of the output buffer and of the staging
/// buffer it is copied to, and the grid to dispatch.
pub struct Upload {
    pub params: Vec<u8>,
    pub volumes: Vec<u8>,
    pub samples: Vec<u8>,
    pub output_bytes: u64,
    pub grid: DispatchGrid,
}

impl Upload {
    /// The track count that the parameter block carries.
    pub open spec fn num_tracks(&self) -> u32 {
        word_at(self.params@, 0)
    }

    /// The slot length that the parameter block carries.
    pub open spec fn buffer_len(&self) -> u32 {
        word_at(self.params@, 1)
    }

    /// Whether this is the upload for mixing `tracks` with `factors`:
    /// the track count and the master length in the parameter block, one
    /// factor for every track with the defaults filled in, the flat
    /// layout with one slot of the master length for each track, an
    /// output buffer of four bytes for each master sample, and the grid
    /// for that many invocations.
    pub open spec fn lays_out(&self, tracks: Seq<Track>, factors: Seq<u32>) -> bool {
        &&& self.params@ == le32(tracks.len() as u32) + le32(master_len(tracks) as u32)
        &&& self.volumes@ == words_le(padded_factors(factors, tracks.len()))
        &&& self.samples@ == words_le(flat_layout(tracks, master_len(tracks)))
        &&& self.output_bytes == 4 * master_len(tracks)
        &&& self.grid.x_groups == X_GROUPS
        &&& self.grid.y_groups == rows_needed(master_len(tracks))
    }

    /// Whether the buffers are as large as the device program takes them
    /// to be.
    pub open spec fn well_formed(&self) -> bool {
        &&& self.params@.len() == 8
        &&& self.grid.x_groups <= 65535
        &&& self.volumes@.len() / 4 >= self.num_tracks()
        &&& self.samples@.len() / 4 >= self.num_tracks() * self.buffer_len()
    }

    /// Tells whether the upload is well formed.
    pub fn check(&self) -> (ok: bool)
        ensures
            ok == self.well_formed(),
    {
        if self.params.len() != 8 || self.grid.x_groups > 65535 {
            return false;
        }
        let params = bytes_to_words(&self.params);
        let num_tracks: u64 = params[0] as u64;
        let buffer_len: u64 = params[1] as u64;
        assert(num_tracks * buffer_len <= 0xffff_ffff * 0xffff_ffff) by (nonlinear_arith)
            requires
                num_tracks <= 0xffff_ffff,
                buffer_len <= 0xffff_ffff,
        ;
        (self.volumes.len() / 4) as u64 >= num_tracks && (self.samples.len() / 4) as u64
            >= num_tracks * buffer_len
    }

    /// What the output buffer holds after the dispatch: at every index
    /// that an invocation of the grid owns, the weighted sum over all
    /// tracks; elsewhere the zero it was created with.
    pub open spec fn output(&self) -> Seq<u32> {
        Seq::new(
            self.buffer_len() as nat,
            |idx: int|
                if idx < self.grid.y_groups * (self.grid.x_groups * 256) {
                    kernel_prefix(
                        words_of(self.samples@),
                        words_of(self.volumes@),
                        self.buffer_len() as int,
                        idx,
                        self.num_tracks() as nat,
                    )
                } else {
                    0u32
                },
        )
    }
}

/// The factors of the first `count` tracks, defaults filled in.
pub open spec fn padded_factors(factors: Seq<u32>, count: nat) -> Seq<u32> {
    Seq::new(count, |t: int| factor_at(factors, t))
}

/// Whether the tracks fit the device's 32-bit parameters and the
/// machine's address space.
pub open spec fn fits_device(tracks: Seq<Track>) -> bool {
    &&& tracks.len() <= u32::MAX
    &&& master_len(tracks) <= u32::MAX
    &&& 4 * (tracks.len() * master_len(tracks)) <= usize::MAX
}

/// A buffer of `len` zero words.
fn zeroed(len: usize) -> (buffer: Vec<u32>)
    ensures
        buffer.len() == len,
        forall|i: int| 0 <= i < len ==> buffer@[i] == 0,
{
    let mut buffer: Vec<u32> = Vec::new();
    let mut i: usize = 0;
    while i < len
        invariant
            i <= len,
            buffer.len() == i,
            forall|j: int| 0 <= j < i ==> buffer@[j] == 0,
        decreases len - i,
    {
        buffer.push(0);
        i = i + 1;
    }
    buffer
}

/// Lays out what the device needs to mix `tracks` with `factors`.
pub fn plan_upload(tracks: &Vec<Track>, factors: &Vec<u32>) -> (plan: Upload)
    requires
        fits_device(tracks@),
    ensures
        plan.lays_out(tracks@, factors@),
{
    let len: usize = max_len(tracks);
    let count: usize = tracks.len();
    let mut padded: Vec<u32> = Vec::new();
    let mut t: usize = 0;
    while t < count
        invariant
            t <= count,
            padded.len() == t,
            forall|k: int| 0 <= k < t ==> padded@[k] == factor_at(factors@, k),
        decreases count - t,
    {
        padded.push(
            if t < factors.len() {
                factors[t]
            } else {
                crate::binary32::ONE
            },
        );
        t = t + 1;
    }
    assert(padded@ =~= padded_factors(factors@, count as nat));
    let flat = flatten(tracks, len);
    Upload {
        params: param_block(count as u32, len as u32),
        volumes: words_to_bytes(&padded),
        samples: words_to_bytes(&flat),
        output_bytes: 4 * (len as u64),
        grid: dispatch_grid(len as u32),
    }
}

/// Runs the device program on the host: every invocation of the grid in
/// turn, on the uploaded bytes, giving the bytes that the staging buffer
/// would hold.
pub fn execute(upload: &Upload) -> (staged: Vec<u8>)
    requires
        upload.well_formed(),
    ensures
        staged@ == words_le(upload.output()),
{
    let params = bytes_to_words(&upload.params);
    let num_tracks: u32 = params[0];
    let buffer_len: u32 = params[1];
    let volumes = bytes_to_words(&upload.volumes);
    let all_samples = bytes_to_words(&upload.samples);
    let mut output = zeroed(buffer_len as usize);
    let x_groups: u32 = upload.grid.x_groups;
    let y_groups: u32 = upload.grid.y_groups;
    let width: u32 = x_groups * 256;
    let mut y: u32 = 0;
    while y < y_groups
        invariant
            y <= y_groups,
            x_groups <= 65535,
            width == x_groups * 256,
            volumes.len() >= num_tracks,
            all_samples.len() >= num_tracks * buffer_len,
            output.len() == buffer_len,
            forall|idx: int|
                0 <= idx < buffer_len ==> output@[idx] == (if idx < y * width {
                    kernel_prefix(
                        all_samples@,
                        volumes@,
                        buffer_len as int,
                        idx,
                        num_tracks as nat,
                    )
                } else {
                    0u32
                }),
        decreases y_groups - y,
    {
        let mut x: u32 = 0;
        while x < width
            invariant
                y < y_groups,
                x <= width,
                x_groups <= 65535,
                width == x_groups * 256,
                volumes.len() >= num_tracks,
                all_samples.len() >= num_tracks * buffer_len,
                output.len() == buffer_len,
                forall|idx: int|
                    0 <= idx < buffer_len ==> output@[idx] == (if idx < y * width + x {
                        kernel_prefix(
                            all_samples@,
                            volumes@,
                            buffer_len as int,
                            idx,
                            num_tracks as nat,
                        )
                    } else {
                        0u32
                    }),
            decreases width - x,
        {
            invoke(num_tracks, buffer_len, &volumes, &all_samples, &mut output, x, y, x_groups);
            x = x + 1;
        }
        proof {
            assert(y * width + width == (y + 1) * width) by (nonlinear_arith);
        }
        y = y + 1;
    }
    proof {
        assert(y_groups * width == y_groups * (x_groups * 256));
        assert(output@ =~= upload.output());
    }
    words_to_bytes(&output)
}

/// On the flat layout the device program adds up, for every output
/// index, exactly what the host reduction adds up.
pub proof fn lemma_kernel_matches_mix(
    tracks: Seq<Track>,
    factors: Seq<u32>,
    volumes: Seq<u32>,
    idx: int,
    k: nat,
)
    requires
        k <= tracks.len(),
        k <= volumes.len(),
        0 <= idx < master_len(tracks),
        forall|t: int| 0 <= t < k ==> volumes[t] == factor_at(factors, t),
    ensures
        kernel_prefix(
            flat_layout(tracks, master_len(tracks)),
            volumes,
            master_len(tracks) as int,
            idx,
            k,
        ) == mix_prefix(tracks, factors, idx, k),
    decreases k,
{
    if k > 0 {
        lemma_kernel_matches_mix(tracks, factors, volumes, idx, (k - 1) as nat);
        lemma_slot_position((k - 1) as nat, idx as nat, master_len(tracks), tracks.len());
    }
}

/// The two words of a parameter block read back as they were written.
proof fn lemma_param_words(a: u32, b: u32)
    ensures
        (le32(a) + le32(b)).len() == 8,
        word_at(le32(a) + le32(b), 0) == a,
        word_at(le32(a) + le32(b), 1) == b,
{
    let block = le32(a) + le32(b);
    assert(block[0] == le32(a)[0] && block[1] == le32(a)[1] && block[2] == le32(a)[2] && block[3]
        == le32(a)[3]);
    assert(block[4] == le32(b)[0] && block[5] == le32(b)[1] && block[6] == le32(b)[2] && block[7]
        == le32(b)[3]);
}

/// What the device reads from the upload that `plan_upload` lays out:
/// the two parameters, one factor for every track and the flat layout.
proof fn lemma_upload_reads_back(plan: Upload, tracks: Seq<Track>, factors: Seq<u32>)
    requires
        fits_device(tracks),
        plan.lays_out(tracks, factors),
    ensures
        plan.params@.len() == 8,
        plan.num_tracks() == tracks.len(),
        plan.buffer_len() == master_len(tracks),
        words_of(plan.volumes@) == padded_factors(factors, tracks.len()),
        words_of(plan.samples@) == flat_layout(tracks, master_len(tracks)),
        plan.volumes@.len() == 4 * tracks.len(),
        plan.samples@.len() == 4 * (tracks.len() * master_len(tracks)),
{
    lemma_param_words(tracks.len() as u32, master_len(tracks) as u32);
    lemma_words_round_trip(padded_factors(factors, tracks.len()));
    lemma_words_round_trip(flat_layout(tracks, master_len(tracks)));
}

/// The device program, run on the upload that `plan_upload` lays out,
/// leaves the master buffer of the host reduction in the output buffer.
pub proof fn lemma_device_matches_host(plan: Upload, tracks: Seq<Track>, factors: Seq<u32>)
    requires
        fits_device(tracks),
        plan.lays_out(tracks, factors),
    ensures
        plan.well_formed(),
        plan.num_tracks() == tracks.len(),
        plan.buffer_len() == master_len(tracks),
        plan.output() == master(tracks, factors),
        words_of(words_le(plan.output())) == master(tracks, factors),
{
    let len = master_len(tracks);
    let count = tracks.len();
    lemma_upload_reads_back(plan, tracks, factors);
    lemma_rows_cover(len);
    assert(plan.grid.y_groups * (plan.grid.x_groups * 256) >= len);
    assert(plan.output().len() == len);
    assert forall|idx: int| 0 <= idx < len implies plan.output()[idx] == mixed(
        tracks,
        factors,
        idx,
    ) by {
        lemma_kernel_matches_mix(tracks, factors, padded_factors(factors, count), idx, count);
    }
    assert(plan.output() =~= master(tracks, factors));
    lemma_words_round_trip(plan.output());
}

} // verus!
