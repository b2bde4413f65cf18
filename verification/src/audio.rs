//! The audio front end: the format it accepts, reflection padding, framing
//! for the short-time Fourier transform and the cut into segments.

use vstd::prelude::*;

verus! {

/// Samples per second of the audio the model was trained on.
pub const SAMPLE_RATE: u32 = 16000;

/// Samples in one frame of the transform.
pub const N_FFT: usize = 400;

/// Samples between the starts of two frames.
pub const HOP_LENGTH: usize = 160;

/// Samples added on either side of the audio: half a frame.
pub const PAD: usize = 200;

/// Frequency bins a frame of the transform has room for.
pub const N_BINS: usize = 201;

/// Frequency bins of a frame that the transform fills; the last stays zero.
pub const N_KEPT_BINS: usize = 200;

/// Bands of the Mel filter bank.
pub const N_MELS: usize = 80;

/// Frames of one segment: thirty seconds.
pub const N_FRAMES: usize = 3000;

/// Why an audio file is not accepted.
#[derive(Debug, Clone, Copy, PartialEq, Eq)]
pub enum AudioError {
    /// The file has this sample rate, not 16 kHz.
    SampleRate(u32),
    /// The file has this many channels, not one.
    Channels(u16),
    /// The file has samples of this many bits, not 16.
    SampleWidth(u16),
    /// The filter bank has this many rows and columns, not a row for each
    /// Mel band and a column for each frequency bin.
    FilterShape(usize, usize),
}

/// Accepts mono 16-bit audio at 16 kHz and nothing else. The sample rate is
/// looked at first, then the channels, then the width of a sample.
pub fn check_format(sample_rate: u32, channels: u16, bits_per_sample: u16) -> (accepted: Result<
    (),
    AudioError,
>)
    ensures
        accepted == if sample_rate != SAMPLE_RATE {
            Err::<(), AudioError>(AudioError::SampleRate(sample_rate))
        } else if channels != 1 {
            Err(AudioError::Channels(channels))
        } else if bits_per_sample != 16 {
            Err(AudioError::SampleWidth(bits_per_sample))
        } else {
            Ok(())
        },
{
    if sample_rate != SAMPLE_RATE {
        Err(AudioError::SampleRate(sample_rate))
    } else if channels != 1 {
        Err(AudioError::Channels(channels))
    } else if bits_per_sample != 16 {
        Err(AudioError::SampleWidth(bits_per_sample))
    } else {
        Ok(())
    }
}

/// Accepts a Mel filter bank of `N_MELS` rows and `N_BINS` columns and no
/// other.
pub fn check_filters(rows: usize, cols: usize) -> (accepted: Result<(), AudioError>)
    ensures
        accepted == if rows == N_MELS && cols == N_BINS {
            Ok::<(), AudioError>(())
        } else {
            Err(AudioError::FilterShape(rows, cols))
        },
{
    if rows == N_MELS && cols == N_BINS {
        Ok(())
    } else {
        Err(AudioError::FilterShape(rows, cols))
    }
}

/// `audio` with `pad` samples added on either side by reflection: the left
/// sample `i` copies `audio[pad - i]`, the right sample `i` copies
/// `audio[len - 1 - i]`.
pub open spec fn reflect_padded<T>(audio: Seq<T>, pad: int) -> Seq<T> {
    Seq::new(
        (audio.len() + 2 * pad) as nat,
        |i: int|
            if i < pad {
                audio[pad - i]
            } else if i < pad + audio.len() {
                audio[i - pad]
            } else {
                audio[audio.len() - 1 - (i - pad - audio.len())]
            },
    )
}

/// Pads `audio` on both sides by reflection.
pub fn reflect_pad<T: Copy>(audio: &[T], pad: usize) -> (padded: Vec<T>)
    requires
        pad < audio.len(),
        audio.len() + 2 * pad <= usize::MAX,
    ensures
        padded@ == reflect_padded(audio@, pad as int),
{
    let len = audio.len();
    let mut padded: Vec<T> = Vec::new();
    let mut i: usize = 0;
    while i < pad
        invariant
            i <= pad < len == audio.len(),
            padded.len() == i,
            forall|k: int| 0 <= k < i ==> padded[k] == audio[pad - k],
        decreases pad - i,
    {
        padded.push(audio[pad - i]);
        i += 1;
    }
    let mut i: usize = 0;
    while i < len
        invariant
            i <= len == audio.len(),
            pad < len,
            len + 2 * pad <= usize::MAX,
            padded.len() == pad + i,
            forall|k: int| 0 <= k < pad ==> padded[k] == audio[pad - k],
            forall|k: int| pad <= k < pad + i ==> padded[k] == audio[k - pad],
        decreases len - i,
    {
        padded.push(audio[i]);
        i += 1;
    }
    let mut i: usize = 0;
    while i < pad
        invariant
            i <= pad < len == audio.len(),
            len + 2 * pad <= usize::MAX,
            padded.len() == pad + len + i,
            forall|k: int| 0 <= k < pad ==> padded[k] == audio[pad - k],
            forall|k: int| pad <= k < pad + len ==> padded[k] == audio[k - pad],
            forall|k: int|
                pad + len <= k < pad + len + i ==> padded[k] == audio[len - 1 - (k - pad - len)],
        decreases pad - i,
    {
        padded.push(audio[len - 1 - i]);
        i += 1;
    }
    assert(padded@ =~= reflect_padded(audio@, pad as int));
    padded
}

/// Pads `audio` by half a frame on either side, as the transform wants it.
/// Audio of no more than half a frame cannot be reflected and gives `None`.
pub fn pad_audio<T: Copy>(audio: &[T]) -> (padded: Option<Vec<T>>)
    ensures
        match padded {
            Some(padded) => audio.len() > PAD && padded@ == reflect_padded(audio@, PAD as int),
            None => audio.len() <= PAD || audio.len() + 2 * PAD > usize::MAX,
        },
{
    if audio.len() <= PAD || audio.len() > usize::MAX - 2 * PAD {
        None
    } else {
        Some(reflect_pad(audio, PAD))
    }
}

/// Frames that fit into `len` samples: a frame every `HOP_LENGTH` samples,
/// short of the last one.
pub open spec fn frames_in(len: int) -> int {
    if len < N_FFT {
        0
    } else {
        (len - N_FFT) / (HOP_LENGTH as int)
    }
}

/// Time frames of the spectrogram of `n_samples` samples of audio: the
/// frames that fit into the padded audio.
pub open spec fn mel_frames(n_samples: int) -> int {
    (n_samples + 2 * PAD - N_FFT) / (HOP_LENGTH as int)
}

/// The padded audio has a frame for every `HOP_LENGTH` samples of the
/// audio: padding adds as many samples as one frame holds.
pub proof fn lemma_frames_of_padded_audio<T>(audio: Seq<T>)
    ensures
        reflect_padded(audio, PAD as int).len() == audio.len() + 2 * PAD,
        frames_in(reflect_padded(audio, PAD as int).len() as int) == mel_frames(audio.len() as int),
        mel_frames(audio.len() as int) == audio.len() / (HOP_LENGTH as nat),
{
}

/// Counts the frames that fit into `len` samples.
pub fn frame_count(len: usize) -> (count: usize)
    ensures
        count == frames_in(len as int),
{
    if len < N_FFT {
        0
    } else {
        (len - N_FFT) / HOP_LENGTH
    }
}

/// Counts the time frames of the spectrogram of `n_samples` samples.
pub fn mel_frame_count(n_samples: usize) -> (count: usize)
    ensures
        count == mel_frames(n_samples as int),
        count == n_samples / HOP_LENGTH,
        n_samples > PAD ==> count == frames_in(n_samples + 2 * PAD),
{
    n_samples / HOP_LENGTH
}

/// Copies the frame with the number `index` out of the padded audio: the
/// `N_FFT` samples from `index * HOP_LENGTH` on.
pub fn frame<T: Copy>(padded: &[T], index: usize) -> (samples: Vec<T>)
    requires
        index < frames_in(padded.len() as int),
    ensures
        samples@ == padded@.subrange(index * HOP_LENGTH, index * HOP_LENGTH + N_FFT),
{
    let start: usize = index * HOP_LENGTH;
    let mut samples: Vec<T> = Vec::new();
    let mut i: usize = 0;
    while i < N_FFT
        invariant
            i <= N_FFT,
            start == index * HOP_LENGTH,
            start + N_FFT <= padded.len(),
            samples.len() == i,
            forall|k: int| 0 <= k < i ==> samples[k] == padded[start + k],
        decreases N_FFT - i,
    {
        samples.push(padded[start + i]);
        i += 1;
    }
    assert(samples@ =~= padded@.subrange(index * HOP_LENGTH, index * HOP_LENGTH + N_FFT));
    samples
}


/// The bins of a frame as the spectrogram takes them: the first
/// `N_KEPT_BINS` bins of the transform, then `zero`.
pub open spec fn kept_bins_of<T>(spectrum: Seq<T>, zero: T) -> Seq<T> {
    Seq::new(
        N_BINS as nat,
        |i: int|
            if i < N_KEPT_BINS {
                spectrum[i]
            } else {
                zero
            },
    )
}

/// Keeps the first `N_KEPT_BINS` bins of a transformed frame and leaves the
/// last bin at `zero`.
pub fn kept_bins<T: Copy>(spectrum: &[T], zero: T) -> (bins: Vec<T>)
    requires
        spectrum.len() >= N_KEPT_BINS,
    ensures
        bins@ == kept_bins_of(spectrum@, zero),
{
    let mut bins: Vec<T> = Vec::new();
    let mut i: usize = 0;
    while i < N_KEPT_BINS
        invariant
            i <= N_KEPT_BINS <= spectrum.len(),
            bins.len() == i,
            forall|k: int| 0 <= k < i ==> bins[k] == spectrum[k],
        decreases N_KEPT_BINS - i,
    {
        bins.push(spectrum[i]);
        i += 1;
    }
    bins.push(zero);
    assert(bins@ =~= kept_bins_of(spectrum@, zero));
    bins
}

/// A dense matrix, held row by row: a spectrogram has one row for each Mel
/// band and one column for each time frame.
pub struct Matrix<T> {
    rows: Vec<Vec<T>>,
    cols: usize,
}

impl<T> View for Matrix<T> {
    type V = Seq<Seq<T>>;

    /// The rows, each a sequence of its entries.
    closed spec fn view(&self) -> Seq<Seq<T>> {
        Seq::new(self.rows@.len(), |r: int| self.rows@[r]@)
    }
}

/// Whether every row of `rows` has `cols` entries.
pub open spec fn rectangular<T>(rows: Seq<Seq<T>>, cols: int) -> bool {
    forall|r: int| 0 <= r < rows.len() ==> (#[trigger] rows[r]).len() == cols
}

/// `row` cut or filled up with `zero` to `length` entries.
pub open spec fn fitted_row<T>(row: Seq<T>, length: int, zero: T) -> Seq<T> {
    Seq::new(
        length as nat,
        |c: int|
            if c < row.len() {
                row[c]
            } else {
                zero
            },
    )
}

/// Every row of `rows` cut or filled up with `zero` to `length` entries.
pub open spec fn fitted<T>(rows: Seq<Seq<T>>, length: int, zero: T) -> Seq<Seq<T>> {
    Seq::new(rows.len(), |r: int| fitted_row(rows[r], length, zero))
}

/// The columns of `rows` from `from` up to `to`.
pub open spec fn columns_of<T>(rows: Seq<Seq<T>>, from: int, to: int) -> Seq<Seq<T>> {
    Seq::new(rows.len(), |r: int| rows[r].subrange(from, to))
}

/// Segments that a spectrogram of `cols` frames is cut into.
pub open spec fn segment_count(cols: int) -> int {
    (cols + N_FRAMES - 1) / (N_FRAMES as int)
}

/// The segment with the number `index`: the `N_FRAMES` columns from
/// `index * N_FRAMES` on, with `zero` where the spectrogram has ended.
pub open spec fn segment_of<T>(rows: Seq<Seq<T>>, index: int, zero: T) -> Seq<Seq<T>> {
    Seq::new(
        rows.len(),
        |r: int|
            Seq::new(
                N_FRAMES as nat,
                |c: int|
                    if index * N_FRAMES + c < rows[r].len() {
                        rows[r][index * N_FRAMES + c]
                    } else {
                        zero
                    },
            ),
    )
}

impl<T> Matrix<T> {
    #[verifier::type_invariant]
    spec fn well_formed(&self) -> bool {
        forall|r: int| 0 <= r < self.rows@.len() ==> (#[trigger] self.rows@[r]).len() == self.cols
    }

    /// The number of columns.
    pub closed spec fn cols(&self) -> int {
        self.cols as int
    }
}

impl<T: Copy> Matrix<T> {

    /// Makes a matrix of `cols` columns out of its rows, or `None` where a
    /// row has another length.
    pub fn from_rows(rows: Vec<Vec<T>>, cols: usize) -> (matrix: Option<Matrix<T>>)
        ensures
            match matrix {
                Some(m) => rectangular(m@, cols as int) && m.cols() == cols && m@.len()
                    == rows.len() && (forall|r: int|
                    0 <= r < rows.len() ==> #[trigger] m@[r] == rows[r]@),
                None => exists|r: int| 0 <= r < rows.len() && (#[trigger] rows[r]).len() != cols,
            },
    {
        let mut r: usize = 0;
        while r < rows.len()
            invariant
                r <= rows.len(),
                forall|k: int| 0 <= k < r ==> (#[trigger] rows[k]).len() == cols,
            decreases rows.len() - r,
        {
            if rows[r].len() != cols {
                return None;
            }
            r += 1;
        }
        Some(Matrix { rows, cols })
    }

    /// The number of rows.
    pub fn n_rows(&self) -> (n: usize)
        ensures
            n == self@.len(),
    {
        self.rows.len()
    }

    /// The number of columns.
    pub fn n_cols(&self) -> (n: usize)
        ensures
            n == self.cols(),
            rectangular(self@, n as int),
    {
        proof {
            use_type_invariant(self);
        }
        self.cols
    }

    /// The entry in row `r` and column `c`.
    pub fn get(&self, r: usize, c: usize) -> (entry: T)
        requires
            r < self@.len(),
            c < self.cols(),
        ensures
            entry == self@[r as int][c as int],
    {
        proof {
            use_type_invariant(self);
        }
        self.rows[r][c]
    }

    /// Hands the rows out.
    pub fn into_rows(self) -> (rows: Vec<Vec<T>>)
        ensures
            rows@.len() == self@.len(),
            forall|r: int| 0 <= r < rows.len() ==> (#[trigger] rows[r])@ == self@[r],
            rectangular(self@, self.cols()),
    {
        proof {
            use_type_invariant(&self);
        }
        self.rows
    }

    /// The columns from `from` up to `to`, as a matrix of their own.
    pub fn columns(&self, from: usize, to: usize) -> (part: Matrix<T>)
        requires
            from <= to <= self.cols(),
        ensures
            part@ == columns_of(self@, from as int, to as int),
            part.cols() == to - from,
    {
        proof {
            use_type_invariant(self);
        }
        let mut rows: Vec<Vec<T>> = Vec::new();
        let mut r: usize = 0;
        while r < self.rows.len()
            invariant
                r <= self.rows.len(),
                from <= to <= self.cols,
                rows.len() == r,
                forall|k: int|
                    0 <= k < self.rows@.len() ==> (#[trigger] self.rows@[k]).len() == self.cols,
                forall|k: int|
                    0 <= k < r ==> (#[trigger] rows[k])@ == self.rows@[k]@.subrange(
                        from as int,
                        to as int,
                    ),
            decreases self.rows.len() - r,
        {
            let mut row: Vec<T> = Vec::new();
            let mut c: usize = from;
            while c < to
                invariant
                    from <= c <= to <= self.cols,
                    r < self.rows.len(),
                    self.rows@[r as int].len() == self.cols,
                    row.len() == c - from,
                    forall|k: int| 0 <= k < c - from ==> row[k] == self.rows@[r as int]@[from + k],
                decreases to - c,
            {
                row.push(self.rows[r][c]);
                c += 1;
            }
            assert(row@ =~= self.rows@[r as int]@.subrange(from as int, to as int));
            rows.push(row);
            r += 1;
        }
        let part = Matrix { rows, cols: to - from };
        assert(part@ =~= columns_of(self@, from as int, to as int));
        part
    }
}

/// Cuts a spectrogram to `length` frames, or fills it up to `length` frames
/// with `zero` on the right.
pub fn pad_or_trim<T: Copy>(mel: Matrix<T>, length: usize, zero: T) -> (fit: Matrix<T>)
    ensures
        fit@ == fitted(mel@, length as int, zero),
        fit.cols() == length,
{
    let width = mel.n_cols();
    if width == length {
        assert(mel@ =~= fitted(mel@, length as int, zero)) by {
            assert forall|r: int| 0 <= r < mel@.len() implies #[trigger] mel@[r] =~= fitted_row(
                mel@[r],
                length as int,
                zero,
            ) by {}
        }
        return mel;
    }
    let kept: usize = if width < length { width } else { length };
    let mut rows: Vec<Vec<T>> = Vec::new();
    let mut r: usize = 0;
    while r < mel.n_rows()
        invariant
            r <= mel@.len(),
            kept <= length,
            kept <= mel.cols(),
            kept == width || kept == length,
            width == mel.cols(),
            rectangular(mel@, width as int),
            rows.len() == r,
            forall|k: int|
                0 <= k < r ==> (#[trigger] rows[k])@ == fitted_row(mel@[k], length as int, zero),
        decreases mel@.len() - r,
    {
        let mut row: Vec<T> = Vec::new();
        let mut c: usize = 0;
        while c < kept
            invariant
                c <= kept <= mel.cols(),
                r < mel@.len(),
                mel@[r as int].len() == mel.cols(),
                row.len() == c,
                forall|k: int| 0 <= k < c ==> row[k] == mel@[r as int][k],
            decreases kept - c,
        {
            row.push(mel.get(r, c));
            c += 1;
        }
        while c < length
            invariant
                kept <= c <= length,
                kept == width || kept == length,
                width == mel.cols(),
                r < mel@.len(),
                mel@[r as int].len() == mel.cols(),
                row.len() == c,
                forall|k: int| 0 <= k < kept ==> row[k] == mel@[r as int][k],
                forall|k: int| kept <= k < c ==> row[k] == zero,
            decreases length - c,
        {
            row.push(zero);
            c += 1;
        }
        assert(row@ =~= fitted_row(mel@[r as int], length as int, zero));
        rows.push(row);
        r += 1;
    }
    let fit = Matrix { rows, cols: length };
    assert(fit@ =~= fitted(mel@, length as int, zero));
    fit
}

/// Cuts a spectrogram along time into segments of `N_FRAMES` frames, the
/// last filled up with `zero`.
pub fn split_segments<T: Copy>(mel: &Matrix<T>, zero: T) -> (segments: Vec<Matrix<T>>)
    ensures
        segments.len() == segment_count(mel.cols()),
        forall|k: int|
            0 <= k < segments.len() ==> (#[trigger] segments[k])@ == segment_of(mel@, k, zero)
                && segments[k].cols() == N_FRAMES,
{
    let width = mel.n_cols();
    let count: usize = if width % N_FRAMES == 0 {
        width / N_FRAMES
    } else {
        width / N_FRAMES + 1
    };
    let mut segments: Vec<Matrix<T>> = Vec::new();
    while segments.len() < count
        invariant
            width == mel.cols(),
            rectangular(mel@, width as int),
            count == segment_count(width as int),
            segments.len() <= count,
            forall|k: int|
                0 <= k < segments.len() ==> (#[trigger] segments[k])@ == segment_of(mel@, k, zero)
                    && segments[k].cols() == N_FRAMES,
        decreases count - segments.len(),
    {
        let index = segments.len();
        let seek: usize = index * N_FRAMES;
        let end: usize = if width - seek > N_FRAMES { seek + N_FRAMES } else { width };
        let part = mel.columns(seek, end);
        let segment = pad_or_trim(part, N_FRAMES, zero);
        assert(segment@ =~= segment_of(mel@, index as int, zero)) by {
            assert forall|r: int| 0 <= r < mel@.len() implies #[trigger] segment@[r] =~= segment_of(
                mel@,
                index as int,
                zero,
            )[r] by {
                assert(part@[r] == mel@[r].subrange(seek as int, end as int));
            }
        }
        segments.push(segment);
    }
    segments
}

/// A segment has a row for each row of the spectrogram and exactly
/// `N_FRAMES` columns.
pub proof fn lemma_segment_shape<T>(rows: Seq<Seq<T>>, index: int, zero: T)
    ensures
        segment_of(rows, index, zero).len() == rows.len(),
        rectangular(segment_of(rows, index, zero), N_FRAMES as int),
{
}

} // verus!
