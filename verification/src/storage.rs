//! What is written: the columns and the metadata of a dataset, and the rows of a batch.
use vstd::prelude::*;
use crate::pipeline::epoch_start_ms;
use crate::text::{comma_separated, comma_text, decimal, decimal_text, flag, flag_text};

verus! {

/// What a dataset says of itself.
#[derive(Debug)]
pub struct TenzorMetadata {
    pub has_audio: bool,
    pub video_matrix: String,
    pub window_ms: u64,
    pub video_shape: Option<(usize, usize, usize)>,
    pub audio_shape: (usize, usize),
}

impl Clone for TenzorMetadata {
    fn clone(&self) -> (copy: Self)
        ensures
            copy.has_audio == self.has_audio,
            copy.video_matrix@ == self.video_matrix@,
            copy.window_ms == self.window_ms,
            copy.video_shape == self.video_shape,
            copy.audio_shape == self.audio_shape,
    {
        TenzorMetadata {
            has_audio: self.has_audio,
            video_matrix: self.video_matrix.clone(),
            window_ms: self.window_ms,
            video_shape: self.video_shape,
            audio_shape: self.audio_shape,
        }
    }
}

/// The release that datasets are marked with.
pub fn version() -> (text: &'static str)
    ensures
        text@ == "0.3.0"@,
{
    "0.3.0"
}

/// One entry of a dataset's metadata.
#[derive(Debug)]
pub struct Entry {
    pub key: &'static str,
    pub value: String,
}

impl View for Entry {
    type V = (Seq<char>, Seq<char>);

    open spec fn view(&self) -> (Seq<char>, Seq<char>) {
        (self.key@, self.value@)
    }
}

/// The keys and values of the entries.
pub open spec fn entry_views(entries: Seq<Entry>) -> Seq<(Seq<char>, Seq<char>)> {
    entries.map_values(|entry: Entry| entry@)
}

/// The metadata that every dataset has.
pub open spec fn common_metadata(meta: TenzorMetadata) -> Seq<(Seq<char>, Seq<char>)> {
    seq![
        ("tenzor_version"@, "0.3.0"@),
        ("window_ms"@, decimal(meta.window_ms as nat)),
        (
            "audio_shape"@,
            comma_separated(seq![meta.audio_shape.0 as u64, meta.audio_shape.1 as u64]),
        ),
        ("audio_sample_rate"@, "16000"@),
        ("audio_feature"@, "log10-mel-power"@),
        ("video_normalization"@, "RGB CHW [-1,1]"@),
        ("video_matrix"@, meta.video_matrix@),
        ("has_audio"@, flag(meta.has_audio)),
        ("audio_hop_samples"@, "160"@),
        ("audio_fft_samples"@, "400"@),
        ("audio_window"@, "symmetric Hann, left-aligned, zero-pad EOF"@),
        ("audio_mel_scale"@, "HTK, 0..8000Hz, 64 triangular bands, no area normalization"@),
        ("audio_log_floor"@, "log10(power + 1e-10)"@),
        (
            "audio_resampler"@,
            "129-tap Blackman sinc, 1024 phases, cutoff 0.95*min(1,16000/source_rate)"@,
        ),
        ("audio_downmix"@, "arithmetic channel mean"@),
        (
            "video_sampling"@,
            "nearest presentation frame, earlier on tie; repeat last through audio tail"@,
        ),
        ("video_resize"@, "nearest, align-corners, square stretch"@),
        (
            "timestamp_origin"@,
            "movie presentation timeline after edit lists; epoch starts"@,
        ),
    ]
}

/// All metadata of a dataset: the shape of the pictures comes last, where there are any.
pub open spec fn metadata_of(meta: TenzorMetadata) -> Seq<(Seq<char>, Seq<char>)> {
    match meta.video_shape {
        Some((c, h, w)) => common_metadata(meta).push(
            ("video_shape"@, comma_separated(seq![c as u64, h as u64, w as u64])),
        ),
        None => common_metadata(meta),
    }
}

/// Appends an entry.
fn note(entries: &mut Vec<Entry>, key: &'static str, value: &str)
    ensures
        entry_views(final(entries)@) == entry_views(old(entries)@).push((key@, value@)),
{
    let ghost before = entries@;
    let entry = Entry { key, value: value.to_owned() };
    entries.push(entry);
    assert(entry_views(entries@) =~= entry_views(before).push((key@, value@)));
}

/// All metadata of a dataset.
pub fn schema_metadata(meta: &TenzorMetadata) -> (entries: Vec<Entry>)
    ensures
        entry_views(entries@) == metadata_of(*meta),
{
    let mut entries: Vec<Entry> = Vec::new();
    assert(entry_views(entries@) =~= Seq::<(Seq<char>, Seq<char>)>::empty());
    note(&mut entries, "tenzor_version", version());
    let window = decimal_text(meta.window_ms);
    note(&mut entries, "window_ms", window.as_str());
    let mut sides: Vec<u64> = Vec::new();
    sides.push(meta.audio_shape.0 as u64);
    sides.push(meta.audio_shape.1 as u64);
    assert(sides@ =~= seq![meta.audio_shape.0 as u64, meta.audio_shape.1 as u64]);
    let shape = comma_text(&sides);
    note(&mut entries, "audio_shape", shape.as_str());
    note(&mut entries, "audio_sample_rate", "16000");
    note(&mut entries, "audio_feature", "log10-mel-power");
    note(&mut entries, "video_normalization", "RGB CHW [-1,1]");
    note(&mut entries, "video_matrix", meta.video_matrix.as_str());
    note(&mut entries, "has_audio", flag_text(meta.has_audio));
    note(&mut entries, "audio_hop_samples", "160");
    note(&mut entries, "audio_fft_samples", "400");
    note(&mut entries, "audio_window", "symmetric Hann, left-aligned, zero-pad EOF");
    note(
        &mut entries,
        "audio_mel_scale",
        "HTK, 0..8000Hz, 64 triangular bands, no area normalization",
    );
    note(&mut entries, "audio_log_floor", "log10(power + 1e-10)");
    note(
        &mut entries,
        "audio_resampler",
        "129-tap Blackman sinc, 1024 phases, cutoff 0.95*min(1,16000/source_rate)",
    );
    note(&mut entries, "audio_downmix", "arithmetic channel mean");
    note(
        &mut entries,
        "video_sampling",
        "nearest presentation frame, earlier on tie; repeat last through audio tail",
    );
    note(&mut entries, "video_resize", "nearest, align-corners, square stretch");
    note(
        &mut entries,
        "timestamp_origin",
        "movie presentation timeline after edit lists; epoch starts",
    );
    assert(entry_views(entries@) =~= common_metadata(*meta));
    if let Some((c, h, w)) = meta.video_shape {
        let mut sides: Vec<u64> = Vec::new();
        sides.push(c as u64);
        sides.push(h as u64);
        sides.push(w as u64);
        assert(sides@ =~= seq![c as u64, h as u64, w as u64]);
        let shape = comma_text(&sides);
        note(&mut entries, "video_shape", shape.as_str());
    }
    entries
}

/// What a column holds in each row.
#[derive(Clone, Copy, Debug, PartialEq, Eq, Structural)]
pub enum ColumnKind {
    /// One integer.
    Int64,
    /// This many floating-point values.
    Floats(usize),
}

/// A column of a dataset.
#[derive(Debug)]
pub struct Column {
    pub name: &'static str,
    pub kind: ColumnKind,
    /// A row may be without a value.
    pub nullable: bool,
}

/// What a column is: its name, its kind, and whether a row may be without a value.
pub struct ColumnView {
    pub name: Seq<char>,
    pub kind: ColumnKind,
    pub nullable: bool,
}

impl View for Column {
    type V = ColumnView;

    open spec fn view(&self) -> ColumnView {
        ColumnView { name: self.name@, kind: self.kind, nullable: self.nullable }
    }
}

/// A column that has a value in every row.
pub open spec fn filled_column(name: Seq<char>, kind: ColumnKind) -> ColumnView {
    ColumnView { name, kind, nullable: false }
}

/// What the columns are.
pub open spec fn column_views(columns: Seq<Column>) -> Seq<ColumnView> {
    columns.map_values(|column: Column| column@)
}

/// How many values a picture's tensor has.
pub open spec fn video_values(meta: TenzorMetadata) -> int {
    match meta.video_shape {
        Some((c, h, w)) => c * h * w,
        None => 0,
    }
}

/// How many values an epoch's sound has.
pub open spec fn audio_values(meta: TenzorMetadata) -> int {
    meta.audio_shape.0 * meta.audio_shape.1
}

/// The columns of a dataset, in order. Each has a value in every row.
pub open spec fn columns_of(meta: TenzorMetadata) -> Seq<ColumnView> {
    let first = seq![
        filled_column("timestamp_ms"@, ColumnKind::Int64),
        filled_column("audio_valid_frames"@, ColumnKind::Int64),
    ];
    let pictures = seq![
        filled_column("video_timestamp_ms"@, ColumnKind::Int64),
        filled_column("video_tensor"@, ColumnKind::Floats(video_values(meta) as usize)),
    ];
    let last = seq![
        filled_column("audio_mel_tensor"@, ColumnKind::Floats(audio_values(meta) as usize)),
    ];
    if meta.video_shape is Some {
        first + pictures + last
    } else {
        first + last
    }
}

/// The number of values in each row fits a machine word.
pub open spec fn shapes_fit(meta: TenzorMetadata) -> bool {
    &&& audio_values(meta) <= usize::MAX
    &&& meta.video_shape matches Some((c, h, w)) ==> c * h <= usize::MAX && c * h * w <= usize::MAX
}

/// Appends a column that has a value in every row.
fn add_column(columns: &mut Vec<Column>, name: &'static str, kind: ColumnKind)
    ensures
        column_views(final(columns)@) == column_views(old(columns)@).push(filled_column(name@, kind)),
{
    let ghost before = columns@;
    columns.push(Column { name, kind, nullable: false });
    assert(column_views(columns@) =~= column_views(before).push(filled_column(name@, kind)));
}

/// The columns of a dataset, in order, none of them nullable.
pub fn schema_columns(meta: &TenzorMetadata) -> (columns: Vec<Column>)
    requires
        shapes_fit(*meta),
    ensures
        column_views(columns@) == columns_of(*meta),
{
    let mut columns: Vec<Column> = Vec::new();
    assert(column_views(columns@) =~= Seq::<ColumnView>::empty());
    add_column(&mut columns, "timestamp_ms", ColumnKind::Int64);
    add_column(&mut columns, "audio_valid_frames", ColumnKind::Int64);
    if let Some((c, h, w)) = meta.video_shape {
        let values: usize = c * h * w;
        add_column(&mut columns, "video_timestamp_ms", ColumnKind::Int64);
        add_column(&mut columns, "video_tensor", ColumnKind::Floats(values));
    }
    let values: usize = meta.audio_shape.0 * meta.audio_shape.1;
    add_column(&mut columns, "audio_mel_tensor", ColumnKind::Floats(values));
    assert(column_views(columns@) =~= columns_of(*meta));
    columns
}

/// Why rows are refused.
#[derive(Clone, Copy, Debug, PartialEq, Eq, Structural)]
pub enum ShapeError {
    /// Audio row shape mismatch.
    AudioRow,
    /// Missing video tensor for multimodal batch.
    MissingVideo,
    /// Video row shape mismatch.
    VideoRow,
    /// Audio batch shape mismatch.
    AudioBatch,
    /// Video batch shape mismatch.
    VideoBatch,
}

/// Whether a batch of `rows` rows is to be written: one without rows is not, and one whose
/// values do not fill its rows is refused. `video_len` is the number of video values, none
/// counting as zero, and `video_dim` the number that a row has, where there are pictures.
pub fn check_batch(
    rows: usize,
    audio_len: usize,
    audio_dim: usize,
    video_len: usize,
    video_dim: Option<usize>,
) -> (res: Result<bool, ShapeError>)
    requires
        rows * audio_dim <= usize::MAX,
        video_dim matches Some(dim) ==> rows * dim <= usize::MAX,
    ensures
        res == batch_checked(rows, audio_len, audio_dim, video_len, video_dim),
        res == if rows == 0 {
            Ok::<bool, ShapeError>(false)
        } else if audio_len != rows * audio_dim {
            Err(ShapeError::AudioBatch)
        } else if video_dim matches Some(dim) && video_len != rows * dim {
            Err(ShapeError::VideoBatch)
        } else {
            Ok(true)
        },
{
    if rows == 0 {
        return Ok(false);
    }
    if audio_len != rows * audio_dim {
        return Err(ShapeError::AudioBatch);
    }
    if let Some(dim) = video_dim {
        if video_len != rows * dim {
            return Err(ShapeError::VideoBatch);
        }
    }
    Ok(true)
}

/// Timestamps, pictures, sound, valid frames and picture times of a batch.
pub type BatchBuffers<T> = (Vec<i64>, Option<Vec<T>>, Vec<T>, Vec<i64>, Vec<i64>);

/// One row of a batch.
pub struct Row<T> {
    pub timestamp_ms: i64,
    pub valid_frames: i64,
    pub video_pts: i64,
    pub audio: Seq<T>,
    pub video: Option<Seq<T>>,
}

/// The rows in the columns of a batch.
pub open spec fn rows_of<T>(
    timestamps: Seq<i64>,
    valid_frames: Seq<i64>,
    video_pts: Seq<i64>,
    audio: Seq<T>,
    audio_dim: int,
    video: Option<Seq<T>>,
    video_dim: int,
) -> Seq<Row<T>> {
    Seq::new(
        timestamps.len(),
        |i: int|
            Row {
                timestamp_ms: timestamps[i],
                valid_frames: valid_frames[i],
                video_pts: video_pts[i],
                audio: audio.subrange(i * audio_dim, (i + 1) * audio_dim),
                video: match video {
                    Some(video) => Some(video.subrange(i * video_dim, (i + 1) * video_dim)),
                    None => None,
                },
            },
    )
}

/// Rows that wait to be written together.
pub struct BatchAccumulator<T> {
    pub timestamps: Vec<i64>,
    pub valid_frames: Vec<i64>,
    pub video_pts: Vec<i64>,
    pub video: Option<Vec<T>>,
    pub audio: Vec<T>,
    /// How many rows a batch has when it is full.
    pub cap_rows: usize,
    /// How many video values a row has.
    pub video_dim: usize,
    /// How many audio values a row has.
    pub audio_dim: usize,
}

/// Appends all values.
fn append_values<T: Copy>(values: &mut Vec<T>, more: &[T])
    ensures
        final(values)@ == old(values)@ + more@,
{
    let ghost before = values@;
    let count: usize = more.len();
    let mut i: usize = 0;
    assert(values@ =~= before + more@.take(0));
    while i < count
        invariant
            i <= count == more@.len(),
            values@ == before + more@.take(i as int),
        decreases count - i,
    {
        values.push(more[i]);
        i += 1;
        assert(values@ =~= before + more@.take(i as int));
    }
    assert(more@.take(i as int) =~= more@);
}

/// What the video columns of a batch hold.
pub open spec fn video_view<T>(video: Option<Vec<T>>) -> Option<Seq<T>> {
    match video {
        Some(values) => Some(values@),
        None => None,
    }
}

/// A row's sound has the size that the batch asks for, and so has its picture, where the
/// batch has pictures.
pub open spec fn row_fits<T>(
    batch: BatchAccumulator<T>,
    picture: Option<(i64, &[T])>,
    audio: Seq<T>,
) -> bool {
    &&& audio.len() == batch.audio_dim
    &&& batch.video is Some ==> (picture matches Some((_, values)) && values@.len()
        == batch.video_dim)
}

impl<T: Copy> BatchAccumulator<T> {
    /// All columns have the same number of rows.
    pub open spec fn valid(&self) -> bool {
        let rows = self.timestamps@.len();
        &&& self.valid_frames@.len() == rows
        &&& self.video_pts@.len() == rows
        &&& self.audio@.len() == rows * self.audio_dim
        &&& self.video matches Some(video) ==> video@.len() == rows * self.video_dim
    }

    /// The rows that wait.
    pub open spec fn rows(&self) -> Seq<Row<T>> {
        rows_of(
            self.timestamps@,
            self.valid_frames@,
            self.video_pts@,
            self.audio@,
            self.audio_dim as int,
            video_view(self.video),
            self.video_dim as int,
        )
    }

    /// A batch without rows. Its rows have pictures where `video_dim` says how large they are.
    pub fn new(cap_rows: usize, video_dim: Option<usize>, audio_dim: usize) -> (batch: Self)
        ensures
            batch.valid(),
            batch.rows() == Seq::<Row<T>>::empty(),
            batch.cap_rows == cap_rows,
            batch.audio_dim == audio_dim,
            batch.video is Some <==> video_dim is Some,
            video_dim matches Some(dim) ==> batch.video_dim == dim,
    {
        let (video, width): (Option<Vec<T>>, usize) = match video_dim {
            Some(dim) => (Some(Vec::new()), dim),
            None => (None, 0),
        };
        let batch = BatchAccumulator {
            timestamps: Vec::new(),
            valid_frames: Vec::new(),
            video_pts: Vec::new(),
            video,
            audio: Vec::new(),
            cap_rows,
            video_dim: width,
            audio_dim,
        };
        assert(batch.rows() =~= Seq::<Row<T>>::empty());
        batch
    }

    /// Adds a row. A row whose sound has the wrong size changes nothing; where the picture is
    /// missing or has the wrong size, the other columns already have the row.
    pub fn push(
        &mut self,
        timestamp_ms: i64,
        video: Option<&[T]>,
        audio: &[T],
        valid_frames: i64,
        video_pts: i64,
    ) -> (res: Result<(), ShapeError>)
        ensures
            final(self).cap_rows == old(self).cap_rows,
            final(self).audio_dim == old(self).audio_dim,
            final(self).video_dim == old(self).video_dim,
            audio@.len() != old(self).audio_dim ==> res == Err::<(), ShapeError>(
                ShapeError::AudioRow,
            ) && *final(self) == *old(self),
            audio@.len() == old(self).audio_dim ==> {
                &&& final(self).timestamps@ == old(self).timestamps@.push(timestamp_ms)
                &&& final(self).valid_frames@ == old(self).valid_frames@.push(valid_frames)
                &&& final(self).video_pts@ == old(self).video_pts@.push(video_pts)
                &&& final(self).audio@ == old(self).audio@ + audio@
                &&& match old(self).video {
                    None => res is Ok && final(self).video is None,
                    Some(before) => match video {
                        None => res == Err::<(), ShapeError>(ShapeError::MissingVideo)
                            && video_view(final(self).video) == Some(before@),
                        Some(values) => if values@.len() != old(self).video_dim {
                            res == Err::<(), ShapeError>(ShapeError::VideoRow) && video_view(
                                final(self).video,
                            ) == Some(before@)
                        } else {
                            res is Ok && video_view(final(self).video) == Some(
                                before@ + values@,
                            )
                        },
                    },
                }
            },
            old(self).valid() && res is Ok ==> final(self).valid() && final(self).rows() == old(
                self,
            ).rows().push(
                Row {
                    timestamp_ms,
                    valid_frames,
                    video_pts,
                    audio: audio@,
                    video: match old(self).video {
                        Some(_) => Some(video->Some_0@),
                        None => None,
                    },
                },
            ),
    {
        let ghost before = *self;
        if audio.len() != self.audio_dim {
            return Err(ShapeError::AudioRow);
        }
        self.timestamps.push(timestamp_ms);
        self.valid_frames.push(valid_frames);
        self.video_pts.push(video_pts);
        append_values(&mut self.audio, audio);
        if let Some(values) = self.video.as_mut() {
            match video {
                None => {
                    return Err(ShapeError::MissingVideo);
                },
                Some(source) => {
                    if source.len() != self.video_dim {
                        return Err(ShapeError::VideoRow);
                    }
                    append_values(values, source);
                },
            }
        }
        proof {
            if before.valid() {
                lemma_row_added(before, *self, timestamp_ms, video, audio@, valid_frames, video_pts);
            }
        }
        Ok(())
    }

    /// Adds the row of an epoch, and hands the rows over where the batch is full then. An epoch
    /// without a picture has minus one for the picture's time.
    pub fn record(
        &mut self,
        epoch: usize,
        window_ms: u64,
        picture: Option<(i64, &[T])>,
        audio: &[T],
        valid: usize,
    ) -> (res: Result<Option<BatchBuffers<T>>, ShapeError>)
        requires
            old(self).valid(),
            epoch * window_ms <= i64::MAX,
            valid <= i64::MAX,
        ensures
            ({
                let row = epoch_row(
                    epoch as int,
                    window_ms as int,
                    picture,
                    audio@,
                    valid as int,
                    old(self).video is Some,
                );
                match res {
                    Ok(None) => final(self).rows() == old(self).rows().push(row),
                    Ok(Some(buffers)) => rows_of(
                        buffers.0@,
                        buffers.3@,
                        buffers.4@,
                        buffers.2@,
                        old(self).audio_dim as int,
                        video_view(buffers.1),
                        old(self).video_dim as int,
                    ) == old(self).rows().push(row),
                    Err(_) => !row_fits(*old(self), picture, audio@),
                }
            }),
            ({
                let row = Row {
                    timestamp_ms: (epoch * window_ms) as i64,
                    valid_frames: valid as i64,
                    video_pts: match picture {
                        Some((pts, _)) => pts,
                        None => -1i64,
                    },
                    audio: audio@,
                    video: match old(self).video {
                        Some(_) => Some(picture->Some_0.1@),
                        None => None,
                    },
                };
                let full = old(self).timestamps@.len() + 1 >= old(self).cap_rows;
                match res {
                    Ok(None) => {
                        &&& row_fits(*old(self), picture, audio@)
                        &&& !full
                        &&& final(self).valid()
                        &&& final(self).rows() == old(self).rows().push(row)
                    },
                    Ok(Some(buffers)) => {
                        &&& row_fits(*old(self), picture, audio@)
                        &&& full
                        &&& final(self).valid()
                        &&& final(self).rows() == Seq::<Row<T>>::empty()
                        &&& rows_of(
                            buffers.0@,
                            buffers.3@,
                            buffers.4@,
                            buffers.2@,
                            old(self).audio_dim as int,
                            video_view(buffers.1),
                            old(self).video_dim as int,
                        ) == old(self).rows().push(row)
                    },
                    Err(error) => !row_fits(*old(self), picture, audio@) && error == if audio@.len()
                        != old(self).audio_dim {
                        ShapeError::AudioRow
                    } else if picture is None {
                        ShapeError::MissingVideo
                    } else {
                        ShapeError::VideoRow
                    },
                }
            }),
            final(self).cap_rows == old(self).cap_rows,
            final(self).audio_dim == old(self).audio_dim,
            final(self).video_dim == old(self).video_dim,
            final(self).video is Some <==> old(self).video is Some,
    {
        let timestamp: i64 = epoch_start_ms(epoch, window_ms);
        let (video, pts): (Option<&[T]>, i64) = match picture {
            Some((pts, values)) => (Some(values), pts),
            None => (None, -1),
        };
        match self.push(timestamp, video, audio, valid as i64, pts) {
            Ok(()) => {},
            Err(error) => {
                return Err(error);
            },
        }
        if self.is_full() {
            Ok(Some(self.drain()))
        } else {
            Ok(None)
        }
    }

    /// Whether the batch has all the rows that it may have.
    pub fn is_full(&self) -> (full: bool)
        ensures
            full == (self.timestamps@.len() >= self.cap_rows),
    {
        self.timestamps.len() >= self.cap_rows
    }

    /// Whether the batch has no row.
    pub fn is_empty(&self) -> (empty: bool)
        ensures
            empty == (self.timestamps@.len() == 0),
    {
        self.timestamps.len() == 0
    }

    /// Hands the rows over and starts again without any.
    pub fn drain(&mut self) -> (buffers: BatchBuffers<T>)
        ensures
            buffers.0@ == old(self).timestamps@,
            video_view(buffers.1) == video_view(old(self).video),
            buffers.2@ == old(self).audio@,
            buffers.3@ == old(self).valid_frames@,
            buffers.4@ == old(self).video_pts@,
            rows_of(
                buffers.0@,
                buffers.3@,
                buffers.4@,
                buffers.2@,
                old(self).audio_dim as int,
                video_view(buffers.1),
                old(self).video_dim as int,
            ) == old(self).rows(),
            final(self).valid(),
            final(self).rows() == Seq::<Row<T>>::empty(),
            final(self).video is Some <==> old(self).video is Some,
            final(self).cap_rows == old(self).cap_rows,
            final(self).audio_dim == old(self).audio_dim,
            final(self).video_dim == old(self).video_dim,
    {
        let mut timestamps: Vec<i64> = Vec::new();
        let mut valid_frames: Vec<i64> = Vec::new();
        let mut video_pts: Vec<i64> = Vec::new();
        let mut audio: Vec<T> = Vec::new();
        let mut video: Option<Vec<T>> = match self.video {
            Some(_) => Some(Vec::new()),
            None => None,
        };
        std::mem::swap(&mut self.timestamps, &mut timestamps);
        std::mem::swap(&mut self.valid_frames, &mut valid_frames);
        std::mem::swap(&mut self.video_pts, &mut video_pts);
        std::mem::swap(&mut self.audio, &mut audio);
        std::mem::swap(&mut self.video, &mut video);
        assert(self.rows() =~= Seq::<Row<T>>::empty());
        (timestamps, video, audio, valid_frames, video_pts)
    }
}

proof fn lemma_row_added<T: Copy>(
    before: BatchAccumulator<T>,
    after: BatchAccumulator<T>,
    timestamp_ms: i64,
    video: Option<&[T]>,
    audio: Seq<T>,
    valid_frames: i64,
    video_pts: i64,
)
    requires
        before.valid(),
        after.audio_dim == before.audio_dim,
        after.video_dim == before.video_dim,
        audio.len() == before.audio_dim,
        after.timestamps@ == before.timestamps@.push(timestamp_ms),
        after.valid_frames@ == before.valid_frames@.push(valid_frames),
        after.video_pts@ == before.video_pts@.push(video_pts),
        after.audio@ == before.audio@ + audio,
        match before.video {
            None => after.video is None,
            Some(values) => video is Some && video->Some_0@.len() == before.video_dim
                && video_view(after.video) == Some(values@ + video->Some_0@),
        },
    ensures
        after.valid(),
        after.rows() == before.rows().push(
            Row {
                timestamp_ms,
                valid_frames,
                video_pts,
                audio,
                video: match before.video {
                    Some(_) => Some(video->Some_0@),
                    None => None,
                },
            },
        ),
{
    let n = before.timestamps@.len() as int;
    let a = before.audio_dim as int;
    let v = before.video_dim as int;
    assert((n + 1) * a == n * a + a) by (nonlinear_arith);
    assert((n + 1) * v == n * v + v) by (nonlinear_arith);
    let rows = after.rows();
    let row = Row {
        timestamp_ms,
        valid_frames,
        video_pts,
        audio,
        video: match before.video {
            Some(_) => Some(video->Some_0@),
            None => None,
        },
    };
    let expected = before.rows().push(row);
    assert(rows.len() == expected.len());
    assert forall|i: int| 0 <= i < rows.len() implies rows[i] == expected[i] by {
        if i < n {
            assert((i + 1) * a <= n * a && 0 <= i * a <= (i + 1) * a) by (nonlinear_arith)
                requires
                    0 <= i < n,
                    a >= 0,
            ;
            assert((i + 1) * v <= n * v && 0 <= i * v <= (i + 1) * v) by (nonlinear_arith)
                requires
                    0 <= i < n,
                    v >= 0,
            ;
            assert(after.audio@.subrange(i * a, (i + 1) * a) =~= before.audio@.subrange(
                i * a,
                (i + 1) * a,
            ));
            if let Some(values) = before.video {
                let now = video_view(after.video)->Some_0;
                assert(now.subrange(i * v, (i + 1) * v) =~= values@.subrange(i * v, (i + 1) * v));
            }
        } else {
            assert(after.audio@.subrange(n * a, (n + 1) * a) =~= audio);
            if let Some(values) = before.video {
                let now = video_view(after.video)->Some_0;
                assert(now.subrange(n * v, (n + 1) * v) =~= video->Some_0@);
            }
        }
    }
    assert(rows =~= expected);
}

/// What a dataset says of itself, entry by entry: first the release, the epoch length, and the
/// shape of the sound; then how sound and pictures were made; and last the shape of the
/// pictures, where there are any.
pub proof fn law_metadata_entries(meta: TenzorMetadata)
    ensures
        ({
            let said = metadata_of(meta);
            &&& said.len() == 18 + if meta.video_shape is Some {
                1int
            } else {
                0int
            }
            &&& said[0] == ("tenzor_version"@, "0.3.0"@)
            &&& said[1] == ("window_ms"@, decimal(meta.window_ms as nat))
            &&& said[2] == (
                "audio_shape"@,
                decimal(meta.audio_shape.0 as nat) + ","@ + decimal(meta.audio_shape.1 as nat),
            )
            &&& said[3] == ("audio_sample_rate"@, "16000"@)
            &&& said[4] == ("audio_feature"@, "log10-mel-power"@)
            &&& said[5] == ("video_normalization"@, "RGB CHW [-1,1]"@)
            &&& said[6] == ("video_matrix"@, meta.video_matrix@)
            &&& said[7].0 == "has_audio"@
            &&& meta.has_audio ==> said[7].1 == "true"@
            &&& !meta.has_audio ==> said[7].1 == "false"@
            &&& said[8] == ("audio_hop_samples"@, "160"@)
            &&& said[9] == ("audio_fft_samples"@, "400"@)
            &&& said[10] == ("audio_window"@, "symmetric Hann, left-aligned, zero-pad EOF"@)
            &&& said[11] == (
                "audio_mel_scale"@,
                "HTK, 0..8000Hz, 64 triangular bands, no area normalization"@,
            )
            &&& said[12] == ("audio_log_floor"@, "log10(power + 1e-10)"@)
            &&& said[13] == (
                "audio_resampler"@,
                "129-tap Blackman sinc, 1024 phases, cutoff 0.95*min(1,16000/source_rate)"@,
            )
            &&& said[14] == ("audio_downmix"@, "arithmetic channel mean"@)
            &&& said[15] == (
                "video_sampling"@,
                "nearest presentation frame, earlier on tie; repeat last through audio tail"@,
            )
            &&& said[16] == ("video_resize"@, "nearest, align-corners, square stretch"@)
            &&& said[17] == (
                "timestamp_origin"@,
                "movie presentation timeline after edit lists; epoch starts"@,
            )
            &&& meta.video_shape matches Some((c, h, w)) ==> said[18] == (
                "video_shape"@,
                decimal(c as nat) + ","@ + decimal(h as nat) + ","@ + decimal(w as nat),
            )
        }),
{
    reveal_with_fuel(comma_separated, 4);
    let (rows, columns) = meta.audio_shape;
    let a = seq![rows as u64, columns as u64];
    assert(a.drop_last() =~= seq![rows as u64]);
    if let Some((c, h, w)) = meta.video_shape {
        let v = seq![c as u64, h as u64, w as u64];
        assert(v.drop_last() =~= seq![c as u64, h as u64]);
        assert(seq![c as u64, h as u64].drop_last() =~= seq![c as u64]);
    }
}

/// A dataset has its epoch's time and its valid frames, then the picture's time and tensor
/// where there are pictures, and then the sound's tensor. Tensors have as many values as their
/// shape says, and no column may be without a value.
pub proof fn law_columns_of_a_dataset(meta: TenzorMetadata)
    requires
        meta.audio_shape.0 * meta.audio_shape.1 <= usize::MAX,
        meta.video_shape matches Some((c, h, w)) ==> c * h * w <= usize::MAX,
    ensures
        ({
            let columns = columns_of(meta);
            let n = columns.len();
            &&& meta.video_shape is None ==> n == 3
            &&& meta.video_shape is Some ==> n == 5
            &&& forall|i: int| 0 <= i < n ==> !(#[trigger] columns[i]).nullable
            &&& columns[0].name == "timestamp_ms"@ && columns[0].kind == ColumnKind::Int64
            &&& columns[1].name == "audio_valid_frames"@ && columns[1].kind == ColumnKind::Int64
            &&& meta.video_shape matches Some((c, h, w)) ==> {
                &&& columns[2].name == "video_timestamp_ms"@ && columns[2].kind == ColumnKind::Int64
                &&& columns[3].name == "video_tensor"@
                &&& columns[3].kind matches ColumnKind::Floats(values) && values == c * h * w
            }
            &&& columns[n - 1].name == "audio_mel_tensor"@
            &&& columns[n - 1].kind matches ColumnKind::Floats(values) && values
                == meta.audio_shape.0 * meta.audio_shape.1
        }),
{
}

/// Row `i` of a batch has place `i` of every column, and of a tensor column the values from
/// `i` times its size on.
pub proof fn law_rows_stand_in_order<T>(
    timestamps: Seq<i64>,
    valid_frames: Seq<i64>,
    video_pts: Seq<i64>,
    audio: Seq<T>,
    audio_dim: int,
    video: Option<Seq<T>>,
    video_dim: int,
    i: int,
    k: int,
)
    requires
        0 <= i < timestamps.len(),
        audio.len() == timestamps.len() * audio_dim,
        video matches Some(values) ==> values.len() == timestamps.len() * video_dim,
        audio_dim >= 0,
        video_dim >= 0,
    ensures
        ({
            let rows = rows_of(
                timestamps,
                valid_frames,
                video_pts,
                audio,
                audio_dim,
                video,
                video_dim,
            );
            let row = rows[i];
            &&& rows.len() == timestamps.len()
            &&& row.timestamp_ms == timestamps[i]
            &&& row.valid_frames == valid_frames[i]
            &&& row.video_pts == video_pts[i]
            &&& row.audio.len() == audio_dim
            &&& 0 <= k < audio_dim ==> row.audio[k] == audio[i * audio_dim + k]
            &&& row.video is Some <==> video is Some
            &&& video matches Some(values) ==> row.video->Some_0.len() == video_dim && (0 <= k
                < video_dim ==> row.video->Some_0[k] == values[i * video_dim + k])
        }),
{
    let n = timestamps.len() as int;
    assert((i + 1) * audio_dim == i * audio_dim + audio_dim && 0 <= i * audio_dim && (i + 1)
        * audio_dim <= n * audio_dim) by (nonlinear_arith)
        requires
            0 <= i < n,
            audio_dim >= 0,
    ;
    assert((i + 1) * video_dim == i * video_dim + video_dim && 0 <= i * video_dim && (i + 1)
        * video_dim <= n * video_dim) by (nonlinear_arith)
        requires
            0 <= i < n,
            video_dim >= 0,
    ;
}

/// A row fits a batch where its sound has the batch's size and, in a batch with pictures, it has
/// a picture of the batch's size.
pub proof fn law_row_fits_by_size<T>(
    batch: BatchAccumulator<T>,
    picture: Option<(i64, &[T])>,
    audio: Seq<T>,
)
    ensures
        row_fits(batch, picture, audio) <==> audio.len() == batch.audio_dim && (batch.video is None
            || (picture is Some && picture->Some_0.1@.len() == batch.video_dim)),
{
}

/// What a batch of rows is judged to be.
pub open spec fn batch_checked(
    rows: usize,
    audio_len: usize,
    audio_dim: usize,
    video_len: usize,
    video_dim: Option<usize>,
) -> Result<bool, ShapeError> {
    if rows == 0 {
        Ok(false)
    } else if audio_len != rows * audio_dim {
        Err(ShapeError::AudioBatch)
    } else if video_dim matches Some(dim) && video_len != rows * dim {
        Err(ShapeError::VideoBatch)
    } else {
        Ok(true)
    }
}

/// A batch without rows is not written; another one is written exactly where its values fill
/// its rows, and refused for its sound before its pictures.
pub proof fn law_batch_fills_its_rows(
    rows: usize,
    audio_len: usize,
    audio_dim: usize,
    video_len: usize,
    video_dim: Option<usize>,
)
    ensures
        ({
            let res = batch_checked(rows, audio_len, audio_dim, video_len, video_dim);
            let sound = audio_len == rows * audio_dim;
            let pictures = video_dim is None || video_len == rows * video_dim->Some_0;
            &&& res == Ok::<bool, ShapeError>(false) <==> rows == 0
            &&& res == Ok::<bool, ShapeError>(true) <==> rows > 0 && sound && pictures
            &&& res == Err::<bool, ShapeError>(ShapeError::AudioBatch) <==> rows > 0 && !sound
            &&& res == Err::<bool, ShapeError>(ShapeError::VideoBatch) <==> rows > 0 && sound
                && !pictures
        }),
{
}

/// The row of an epoch.
pub open spec fn epoch_row<T>(
    epoch: int,
    window_ms: int,
    picture: Option<(i64, &[T])>,
    audio: Seq<T>,
    valid: int,
    pictures: bool,
) -> Row<T> {
    Row {
        timestamp_ms: (epoch * window_ms) as i64,
        valid_frames: valid as i64,
        video_pts: match picture {
            Some((pts, _)) => pts,
            None => -1i64,
        },
        audio,
        video: if pictures {
            Some(picture->Some_0.1@)
        } else {
            None
        },
    }
}

/// The row of an epoch has the time at which the epoch starts, its valid frames and its sound;
/// with a picture it has that picture's time, and minus one without; and in a batch of pictures
/// it has the picture's values.
pub proof fn law_row_of_an_epoch<T>(
    epoch: int,
    window_ms: int,
    pts: i64,
    values: &[T],
    audio: Seq<T>,
    valid: int,
)
    requires
        0 <= epoch * window_ms <= i64::MAX,
        0 <= valid <= i64::MAX,
    ensures
        ({
            let shown = epoch_row(epoch, window_ms, Some((pts, values)), audio, valid, true);
            let heard = epoch_row::<T>(epoch, window_ms, None, audio, valid, false);
            &&& shown.timestamp_ms == epoch * window_ms && heard.timestamp_ms == epoch * window_ms
            &&& shown.valid_frames == valid && heard.valid_frames == valid
            &&& shown.video_pts == pts && heard.video_pts == -1
            &&& shown.audio == audio && heard.audio == audio
            &&& shown.video == Some(values@) && heard.video is None
        }),
{
}

} // verus!
