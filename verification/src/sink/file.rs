//! Recording to WAV files.
//!
//! What goes into a file, and where, is decided here: the header, the samples, and the
//! two sizes in the header that are known only at the end.
use crate::text::join2;
use vstd::prelude::*;
use vstd::string::*;

verus! {

/// Byte offset of the file size field in the header.
pub const WAV_FILE_SIZE_OFFSET: u64 = 4;

/// Byte offset of the data size field in the header.
pub const WAV_DATA_SIZE_OFFSET: u64 = 40;

/// Size of the header in bytes.
pub const WAV_HEADER_SIZE: usize = 44;

/// Size of the format chunk for PCM.
pub const WAV_FMT_CHUNK_SIZE: u32 = 16;

/// Audio format code for PCM (uncompressed).
pub const WAV_FORMAT_PCM: u16 = 1;

/// Bits per sample.
pub const WAV_BITS_PER_SAMPLE: u16 = 16;

/// Bytes per sample.
pub const BYTES_PER_SAMPLE: u64 = 2;

/// The two bytes of a number, lowest first.
pub open spec fn le16(n: nat) -> Seq<u8> {
    seq![(n % 256) as u8, (n / 256 % 256) as u8]
}

/// The four bytes of a number, lowest first.
pub open spec fn le32(n: nat) -> Seq<u8> {
    seq![
        (n % 256) as u8,
        (n / 256 % 256) as u8,
        (n / 65_536 % 256) as u8,
        (n / 16_777_216 % 256) as u8,
    ]
}

/// Four letters as bytes.
pub open spec fn tag(a: char, b: char, c: char, d: char) -> Seq<u8> {
    seq![a as u8, b as u8, c as u8, d as u8]
}

/// The header of a file with so many bytes of samples.
pub open spec fn header_bytes(sample_rate: nat, channels: nat, data_size: nat) -> Seq<u8> {
    tag('R', 'I', 'F', 'F') + le32(36 + data_size) + tag('W', 'A', 'V', 'E') + tag(
        'f',
        'm',
        't',
        ' ',
    ) + le32(16) + le16(1) + le16(channels) + le32(sample_rate) + le32(sample_rate * channels * 2)
        + le16(channels * 2) + le16(16) + tag('d', 'a', 't', 'a') + le32(data_size)
}

/// Whether the fields of a header have room for its numbers.
pub open spec fn header_fits(sample_rate: nat, channels: nat, data_size: nat) -> bool {
    &&& 36 + data_size <= u32::MAX
    &&& sample_rate * channels * 2 <= u32::MAX
    &&& channels * 2 <= u16::MAX
}

/// A sample as a number of 16 bits.
pub open spec fn sample_word(sample: i16) -> nat {
    if sample >= 0 {
        sample as nat
    } else {
        (sample + 65_536) as nat
    }
}

/// The bytes of some samples.
pub open spec fn sample_bytes(samples: Seq<i16>) -> Seq<u8>
    decreases samples.len(),
{
    if samples.len() == 0 {
        Seq::empty()
    } else {
        sample_bytes(samples.drop_last()) + le16(sample_word(samples.last()))
    }
}

/// A file in which some bytes are replaced, from a place on.
pub open spec fn patched(file: Seq<u8>, offset: int, bytes: Seq<u8>) -> Seq<u8> {
    Seq::new(
        file.len(),
        |i: int|
            if offset <= i < offset + bytes.len() {
                bytes[i - offset]
            } else {
                file[i]
            },
    )
}

/// A file in which the two sizes are set for so many bytes of samples.
pub open spec fn finalized(file: Seq<u8>, data_size: nat) -> Seq<u8> {
    patched(
        patched(file, WAV_FILE_SIZE_OFFSET as int, le32(36 + data_size)),
        WAV_DATA_SIZE_OFFSET as int,
        le32(data_size),
    )
}

/// Appends the two bytes of a number.
fn push_le16(bytes: &mut Vec<u8>, n: u16)
    ensures
        final(bytes)@ == old(bytes)@ + le16(n as nat),
{
    bytes.push((n % 256) as u8);
    bytes.push((n / 256) as u8);
    assert(bytes@ =~= old(bytes)@ + le16(n as nat));
}

/// Appends the four bytes of a number.
fn push_le32(bytes: &mut Vec<u8>, n: u32)
    ensures
        final(bytes)@ == old(bytes)@ + le32(n as nat),
{
    bytes.push((n % 256) as u8);
    bytes.push((n / 256 % 256) as u8);
    bytes.push((n / 65_536 % 256) as u8);
    bytes.push((n / 16_777_216 % 256) as u8);
    assert(bytes@ =~= old(bytes)@ + le32(n as nat));
}

/// Appends four letters.
fn push_tag(bytes: &mut Vec<u8>, a: u8, b: u8, c: u8, d: u8)
    ensures
        final(bytes)@ == old(bytes)@ + seq![a, b, c, d],
{
    bytes.push(a);
    bytes.push(b);
    bytes.push(c);
    bytes.push(d);
    assert(bytes@ =~= old(bytes)@ + seq![a, b, c, d]);
}

/// Makes a complete header (44 bytes).
pub fn write_wav_header(sample_rate: u32, channels: u16, data_size: u32) -> (r: Vec<u8>)
    requires
        header_fits(sample_rate as nat, channels as nat, data_size as nat),
    ensures
        r@ == header_bytes(sample_rate as nat, channels as nat, data_size as nat),
        r@.len() == WAV_HEADER_SIZE,
{
    let mut bytes: Vec<u8> = Vec::with_capacity(WAV_HEADER_SIZE);
    push_tag(&mut bytes, 82, 73, 70, 70);
    push_le32(&mut bytes, 36 + data_size);
    push_tag(&mut bytes, 87, 65, 86, 69);
    push_tag(&mut bytes, 102, 109, 116, 32);
    push_le32(&mut bytes, WAV_FMT_CHUNK_SIZE);
    push_le16(&mut bytes, WAV_FORMAT_PCM);
    push_le16(&mut bytes, channels);
    push_le32(&mut bytes, sample_rate);
    proof {
        let (a, b) = (sample_rate as nat, channels as nat);
        assert(a * b <= a * b * 2) by (nonlinear_arith)
            requires
                a >= 0,
                b >= 0,
        ;
    }
    push_le32(&mut bytes, sample_rate * channels as u32 * 2);
    push_le16(&mut bytes, channels * 2);
    push_le16(&mut bytes, WAV_BITS_PER_SAMPLE);
    push_tag(&mut bytes, 100, 97, 116, 97);
    push_le32(&mut bytes, data_size);
    assert(bytes@ =~= header_bytes(sample_rate as nat, channels as nat, data_size as nat));
    bytes
}

/// Tells whether the fields of a header have room for its numbers.
pub fn can_write_header(sample_rate: u32, channels: u16, data_size: u32) -> (r: bool)
    ensures
        r == header_fits(sample_rate as nat, channels as nat, data_size as nat),
{
    proof {
        let (a, b) = (sample_rate as nat, channels as nat);
        assert(a * b <= 0xffff_ffff * 0xffff) by (nonlinear_arith)
            requires
                a <= 0xffff_ffff,
                b <= 0xffff,
                a >= 0,
                b >= 0,
        ;
    }
    data_size <= u32::MAX - 36 && sample_rate as u64 * channels as u64 * 2 <= u32::MAX as u64
        && channels <= u16::MAX / 2
}

/// The bytes of some samples, lowest first.
pub fn samples_to_bytes(samples: &[i16]) -> (r: Vec<u8>)
    ensures
        r@ == sample_bytes(samples@),
{
    let mut bytes: Vec<u8> = Vec::new();
    let mut i: usize = 0;
    while i < samples.len()
        invariant
            i <= samples.len(),
            bytes@ == sample_bytes(samples@.take(i as int)),
        decreases samples.len() - i,
    {
        assert(samples@.take(i + 1).drop_last() =~= samples@.take(i as int));
        let word: u16 = if samples[i] >= 0 {
            samples[i] as u16
        } else {
            (samples[i] as i32 + 65_536) as u16
        };
        push_le16(&mut bytes, word);
        i = i + 1;
    }
    assert(samples@.take(i as int) =~= samples@);
    bytes
}

/// What is to be replaced at the end of a recording.
pub struct HeaderUpdate {
    /// The bytes of the file size, at `WAV_FILE_SIZE_OFFSET`.
    pub file_size: Vec<u8>,
    /// The bytes of the data size, at `WAV_DATA_SIZE_OFFSET`.
    pub data_size: Vec<u8>,
}

/// Makes the two sizes for so many bytes of samples.
pub fn update_wav_header(data_size: u32) -> (r: HeaderUpdate)
    requires
        36 + data_size <= u32::MAX,
    ensures
        r.file_size@ == le32((36 + data_size) as nat),
        r.data_size@ == le32(data_size as nat),
{
    let mut file_size: Vec<u8> = Vec::new();
    push_le32(&mut file_size, 36 + data_size);
    let mut size: Vec<u8> = Vec::new();
    push_le32(&mut size, data_size);
    assert(Seq::<u8>::empty() + le32((36 + data_size) as nat) =~= le32((36 + data_size) as nat));
    assert(Seq::<u8>::empty() + le32(data_size as nat) =~= le32(data_size as nat));
    HeaderUpdate { file_size, data_size: size }
}

/// How far a recording has come.
#[derive(Debug, Clone, Copy, PartialEq, Eq, Structural)]
pub struct FileState {
    /// Whether the file is open.
    pub open: bool,
    /// Samples that have been written.
    pub samples_written: u64,
    /// The rate in the header.
    pub sample_rate: u32,
    /// The channels in the header.
    pub channels: u16,
}

/// What a write puts into the file.
pub struct WritePlan {
    /// The header, where the file has to be created first.
    pub header: Option<Vec<u8>>,
    /// The samples.
    pub data: Vec<u8>,
}

impl FileState {
    /// Nothing has been recorded.
    pub fn new() -> (r: Self)
        ensures
            r == (FileState { open: false, samples_written: 0, sample_rate: 0, channels: 0 }),
    {
        FileState { open: false, samples_written: 0, sample_rate: 0, channels: 0 }
    }

    /// Decides what a write of samples puts into the file.
    ///
    /// The file is created with the first write, with a header for no samples yet.
    pub fn plan_write(&self, samples: &[i16], sample_rate: u32, channels: u16) -> (r: WritePlan)
        requires
            !self.open ==> header_fits(sample_rate as nat, channels as nat, 0),
        ensures
            r.data@ == sample_bytes(samples@),
            r.header is None <==> self.open,
            r.header matches Some(header) ==> header@ == header_bytes(
                sample_rate as nat,
                channels as nat,
                0,
            ),
    {
        WritePlan {
            header: if self.open {
                None
            } else {
                Some(write_wav_header(sample_rate, channels, 0))
            },
            data: samples_to_bytes(samples),
        }
    }

    /// Notes that the file was created and its header written.
    pub fn opened(&mut self, sample_rate: u32, channels: u16)
        ensures
            *final(self) == (FileState { open: true, sample_rate, channels, ..*old(self) }),
    {
        self.open = true;
        self.sample_rate = sample_rate;
        self.channels = channels;
    }

    /// Notes that so many samples were written.
    pub fn wrote(&mut self, samples: usize)
        requires
            old(self).samples_written + samples <= u64::MAX,
        ensures
            *final(self) == (FileState {
                samples_written: (old(self).samples_written + samples) as u64,
                ..*old(self)
            }),
    {
        self.samples_written = self.samples_written + samples as u64;
    }

    /// The size of the samples in bytes, in the 32 bits that the header has for it.
    pub open spec fn data_size(self) -> nat {
        (self.samples_written as nat) * 2 % 0x1_0000_0000
    }

    /// Tells whether the sizes at the end of the recording fit their fields.
    pub fn can_finalize(&self) -> (r: bool)
        ensures
            r == (!self.open || self.samples_written * 2 <= u64::MAX && 36 + self.data_size()
                <= u32::MAX),
    {
        !self.open || self.samples_written <= u64::MAX / 2 && self.samples_written * 2
            % 0x1_0000_0000 <= u32::MAX as u64 - 36
    }

    /// Decides what is replaced at the end of a recording: nothing where nothing was
    /// written.
    pub fn plan_finalize(&self) -> (r: Option<HeaderUpdate>)
        requires
            self.open ==> self.samples_written * 2 <= u64::MAX && 36 + self.data_size()
                <= u32::MAX,
        ensures
            r is Some <==> self.open,
            r matches Some(update) ==> update.file_size@ == le32(36 + self.data_size())
                && update.data_size@ == le32(self.data_size()),
    {
        if !self.open {
            return None;
        }
        let size: u32 = (self.samples_written * BYTES_PER_SAMPLE % 0x1_0000_0000) as u32;
        Some(update_wav_header(size))
    }

    /// Notes that the file was closed.
    pub fn closed(&mut self)
        ensures
            *final(self) == (FileState { open: false, ..*old(self) }),
    {
        self.open = false;
    }
}

/// A sink that records to a WAV file.
pub struct FileSink {
    /// Human-readable name for logging and error messages.
    pub name: String,
    /// The path of the file.
    pub path: String,
    /// How far the recording has come.
    pub state: FileState,
}

impl FileSink {
    /// Creates a new file sink that writes WAV format.
    pub fn wav(path: &str) -> (r: Self)
        ensures
            r.name@ == "file:"@ + path@,
            r.path@ == path@,
            r.state == (FileState {
                open: false,
                samples_written: 0,
                sample_rate: 0,
                channels: 0,
            }),
    {
        FileSink {
            name: join2("file:", path),
            path: String::from_str(path),
            state: FileState::new(),
        }
    }

    /// Human-readable name for logging and error messages.
    pub fn name(&self) -> (r: &str)
        ensures
            r@ == self.name@,
    {
        self.name.as_str()
    }
}

proof fn lemma_sample_bytes_len(samples: Seq<i16>)
    ensures
        sample_bytes(samples).len() == 2 * samples.len(),
    decreases samples.len(),
{
    if samples.len() > 0 {
        lemma_sample_bytes_len(samples.drop_last());
    }
}

/// Samples written in parts are the bytes of all of them.
pub proof fn lemma_bytes_append(a: Seq<i16>, b: Seq<i16>)
    ensures
        sample_bytes(a + b) == sample_bytes(a) + sample_bytes(b),
    decreases b.len(),
{
    if b.len() == 0 {
        assert(a + b =~= a);
        assert(sample_bytes(a) + Seq::<u8>::empty() =~= sample_bytes(a));
    } else {
        lemma_bytes_append(a, b.drop_last());
        assert((a + b).drop_last() =~= a + b.drop_last());
        assert(sample_bytes(a + b) =~= sample_bytes(a) + sample_bytes(b));
    }
}

/// A finished recording is a header with the right sizes, followed by the samples: setting
/// the sizes afterwards comes to the same as knowing them from the start.
pub proof fn lemma_recording_complete(sample_rate: nat, channels: nat, samples: Seq<i16>)
    ensures
        finalized(
            header_bytes(sample_rate, channels, 0) + sample_bytes(samples),
            2 * samples.len(),
        ) == header_bytes(sample_rate, channels, 2 * samples.len()) + sample_bytes(samples),
        sample_bytes(samples).len() == 2 * samples.len(),
{
    lemma_sample_bytes_len(samples);
    let n = 2 * samples.len();
    let placeholder = header_bytes(sample_rate, channels, 0);
    let complete = header_bytes(sample_rate, channels, n);
    let data = sample_bytes(samples);
    assert(finalized(placeholder + data, n) =~= complete + data);
}

/// A sample that two bytes stand for.
pub open spec fn sample_from(low: u8, high: u8) -> int {
    let word = low + 256 * high;
    if word < 32_768 {
        word as int
    } else {
        word - 65_536
    }
}

/// Reading back the bytes of a recording gives the samples that were written.
pub proof fn lemma_samples_read_back(samples: Seq<i16>, i: int)
    requires
        0 <= i < samples.len(),
    ensures
        sample_bytes(samples).len() == 2 * samples.len(),
        sample_from(sample_bytes(samples)[2 * i], sample_bytes(samples)[2 * i + 1]) == samples[i],
    decreases samples.len(),
{
    lemma_sample_bytes_len(samples);
    lemma_sample_bytes_len(samples.drop_last());
    if i < samples.len() - 1 {
        lemma_samples_read_back(samples.drop_last(), i);
    } else {
        let w = sample_word(samples.last());
        assert(w % 256 + 256 * (w / 256 % 256) == w);
    }
}

/// The bytes of a number of 16 bits give it back.
proof fn lemma_le16_value(n: nat)
    requires
        n < 0x1_0000,
    ensures
        le16(n).len() == 2,
        le16(n)[0] + 0x100 * le16(n)[1] == n,
{
}

/// The bytes of a number of 32 bits give it back.
proof fn lemma_le32_value(n: nat)
    requires
        n < 0x1_0000_0000,
    ensures
        le32(n).len() == 4,
        le32(n)[0] + 0x100 * le32(n)[1] + 0x1_0000 * le32(n)[2] + 0x100_0000 * le32(n)[3] == n,
{
    let (a, b, c) = (n / 0x100, n / 0x1_0000, n / 0x100_0000);
    assert(b == a / 0x100);
    assert(c == b / 0x100);
}

/// What is appended keeps what was there, and comes right behind it.
proof fn lemma_joined(before: Seq<u8>, more: Seq<u8>)
    ensures
        (before + more).len() == before.len() + more.len(),
        forall|i: int| 0 <= i < before.len() ==> #[trigger] (before + more)[i] == before[i],
        more.len() >= 1 ==> (before + more)[before.len() as int] == more[0],
        more.len() >= 2 ==> (before + more)[before.len() + 1int] == more[1],
        more.len() >= 3 ==> (before + more)[before.len() + 2int] == more[2],
        more.len() >= 4 ==> (before + more)[before.len() + 3int] == more[3],
{
}

/// Read back field by field, a header is one of a WAV file with uncompressed samples of 16
/// bits: it names its parts, says how long they are, and gives channels, rate, bytes per frame
/// and bytes per second.
#[verifier::rlimit(60)]
pub proof fn lemma_header_fields(sample_rate: u32, channels: u16, data_size: u32)
    requires
        36 + data_size <= u32::MAX,
        sample_rate * channels * 2 <= u32::MAX,
        channels * 2 <= u16::MAX,
    ensures
        header_fits(sample_rate as nat, channels as nat, data_size as nat),
        ({
            let h = header_bytes(sample_rate as nat, channels as nat, data_size as nat);
            let short = |at: int| h[at] + 0x100 * h[at + 1];
            let long = |at: int|
                h[at] + 0x100 * h[at + 1] + 0x1_0000 * h[at + 2] + 0x100_0000 * h[at + 3];
            &&& h.len() == 44
            &&& h[0] == 0x52 && h[1] == 0x49 && h[2] == 0x46 && h[3] == 0x46
            &&& long(4) == 36 + data_size
            &&& h[8] == 0x57 && h[9] == 0x41 && h[10] == 0x56 && h[11] == 0x45
            &&& h[12] == 0x66 && h[13] == 0x6d && h[14] == 0x74 && h[15] == 0x20
            &&& long(16) == 16
            &&& short(20) == 1
            &&& short(22) == channels
            &&& long(24) == sample_rate
            &&& short(32) == channels * (short(34) / 8)
            &&& long(28) == sample_rate * short(32)
            &&& short(34) == 16
            &&& WAV_BITS_PER_SAMPLE == 16
            &&& h[36] == 0x64 && h[37] == 0x61 && h[38] == 0x74 && h[39] == 0x61
            &&& long(40) == data_size
        }),
{
    let (rate, count, size) = (sample_rate as nat, channels as nat, data_size as nat);
    let h = header_bytes(rate, count, size);
    lemma_le32_value(36 + size);
    lemma_le32_value(16);
    lemma_le16_value(1);
    lemma_le16_value(count);
    lemma_le32_value(rate);
    lemma_le32_value(rate * count * 2);
    lemma_le16_value(count * 2);
    lemma_le16_value(16);
    lemma_le32_value(size);
    let riff = tag('R', 'I', 'F', 'F') + le32(36 + size);
    let name = riff + tag('W', 'A', 'V', 'E') + tag('f', 'm', 't', ' ');
    let kind = name + le32(16) + le16(1) + le16(count);
    let rates = kind + le32(rate) + le32(rate * count * 2);
    let frame = rates + le16(count * 2) + le16(16);
    lemma_joined(tag('R', 'I', 'F', 'F'), le32(36 + size));
    lemma_joined(riff, tag('W', 'A', 'V', 'E'));
    lemma_joined(riff + tag('W', 'A', 'V', 'E'), tag('f', 'm', 't', ' '));
    lemma_joined(name, le32(16));
    lemma_joined(name + le32(16), le16(1));
    lemma_joined(name + le32(16) + le16(1), le16(count));
    lemma_joined(kind, le32(rate));
    lemma_joined(kind + le32(rate), le32(rate * count * 2));
    lemma_joined(rates, le16(count * 2));
    lemma_joined(rates + le16(count * 2), le16(16));
    lemma_joined(frame, tag('d', 'a', 't', 'a'));
    lemma_joined(frame + tag('d', 'a', 't', 'a'), le32(size));
    assert(h == frame + tag('d', 'a', 't', 'a') + le32(size));
    assert(rate * count * 2 == rate * (count * 2)) by (nonlinear_arith);
}

/// A finished recording says of itself how long it is, and holds the samples in the order in
/// which they were written: each in two bytes, the lower first, after the header.
#[verifier::rlimit(60)]
pub proof fn lemma_recording_read_back(
    sample_rate: u32,
    channels: u16,
    samples: Seq<i16>,
    i: int,
)
    requires
        36 + 2 * samples.len() <= u32::MAX,
        sample_rate * channels * 2 <= u32::MAX,
        channels * 2 <= u16::MAX,
    ensures
        ({
            let file = finalized(
                header_bytes(sample_rate as nat, channels as nat, 0) + sample_bytes(samples),
                2 * samples.len(),
            );
            let short = |at: int| file[at] + 0x100 * file[at + 1];
            let long = |at: int|
                file[at] + 0x100 * file[at + 1] + 0x1_0000 * file[at + 2] + 0x100_0000 * file[at
                    + 3];
            &&& file.len() == 44 + 2 * samples.len()
            &&& long(4) == file.len() - 8
            &&& long(40) == file.len() - 44
            &&& short(22) == channels
            &&& long(24) == sample_rate
            &&& short(34) == 16
            &&& 0 <= i < samples.len() && samples[i] >= 0 ==> short(44 + 2 * i) == samples[i]
            &&& 0 <= i < samples.len() && samples[i] < 0 ==> short(44 + 2 * i) == samples[i]
                + 0x1_0000
        }),
{
    let n = 2 * samples.len();
    lemma_recording_complete(sample_rate as nat, channels as nat, samples);
    lemma_header_fields(sample_rate, channels, n as u32);
    let h = header_bytes(sample_rate as nat, channels as nat, n);
    let data = sample_bytes(samples);
    let file = h + data;
    assert(h.len() == 44);
    lemma_starts_with(h, data, 4);
    lemma_starts_with(h, data, 40);
    lemma_starts_with(h, data, 22);
    lemma_starts_with(h, data, 24);
    lemma_starts_with(h, data, 34);
    if 0 <= i < samples.len() {
        lemma_samples_read_back(samples, i);
        assert(file[44 + 2 * i] == data[2 * i]);
        assert(file[44 + 2 * i + 1] == data[2 * i + 1]);
    }
}

/// What follows a header does not change its bytes.
proof fn lemma_starts_with(h: Seq<u8>, data: Seq<u8>, at: int)
    requires
        0 <= at,
        at + 4 <= h.len(),
    ensures
        (h + data)[at] == h[at],
        (h + data)[at + 1] == h[at + 1],
        (h + data)[at + 2] == h[at + 2],
        (h + data)[at + 3] == h[at + 3],
{
}

/// The size that is set at the end of a recording is that of all samples written, as long as
/// it fits the 32 bits of its field.
pub proof fn lemma_size_is_that_of_samples(state: FileState)
    requires
        2 * state.samples_written < 0x1_0000_0000,
    ensures
        state.data_size() == 2 * state.samples_written,
{
}

} // verus!
