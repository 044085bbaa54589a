//! Weight files: which tensors a safetensors file holds, and their elements as
//! they are stored.

use crate::audio::{le16, le32, u16_at, u32_at};
use crate::error::{ErrorView, TtsError};
use crate::text::{decimal, digits};
use safetensors::tensor::Metadata;
use safetensors::{Dtype, SafeTensors};
use vstd::prelude::*;

verus! {

/// The element types that weights come in.
#[derive(Clone, Copy, PartialEq, Eq, Debug, Structural)]
pub enum Kind {
    /// The upper half of a single-precision number.
    Brain,
    /// Half precision.
    Half,
    /// Single precision.
    Full,
    /// Anything else; it cannot be used.
    Other,
}

/// A tensor of a file.
pub struct TensorEntry {
    pub kind: Kind,
    /// The name of the element type.
    pub dtype: Seq<char>,
    pub shape: Seq<usize>,
    pub data: Seq<u8>,
}

/// The number of elements that a shape stands for.
pub open spec fn volume(shape: Seq<usize>) -> int
    decreases shape.len(),
{
    if shape.len() == 0 {
        1
    } else {
        volume(shape.drop_last()) * shape.last()
    }
}

/// The bytes of an element; 0 where it cannot be used.
pub open spec fn width(kind: Kind) -> int {
    match kind {
        Kind::Brain => 2,
        Kind::Half => 2,
        Kind::Full => 4,
        Kind::Other => 0,
    }
}

/// The bytes of a tensor are exactly those of its elements.
pub open spec fn sized(t: TensorEntry) -> bool {
    t.kind != Kind::Other ==> t.data.len() == volume(t.shape) * width(t.kind)
}

/// A parsed file of `safetensors`, opaque here.
#[verifier::external_type_specification]
#[verifier::external_body]
pub struct ExSafeTensors<'data>(safetensors::SafeTensors<'data>);

/// The tensors of a parsed file, by name.
pub uninterp spec fn tensors_of(st: SafeTensors<'_>) -> Map<Seq<char>, TensorEntry>;

/// The tensors that the bytes of a file stand for; nothing where they are no
/// such file.
pub uninterp spec fn file_tensors(bytes: Seq<u8>) -> Option<Map<Seq<char>, TensorEntry>>;

/// The bytes of tensor data that a file's header declares; nothing where it is
/// no such header.
pub uninterp spec fn declared_len(header: Seq<u8>) -> Option<usize>;

/// `serde_json::from_slice` into a `Metadata`, and `Metadata::data_len`: where
/// the last tensor that the header declares ends. The tensors of a header that
/// can be read follow one another, so that is the length of the data.
#[verifier::external_body]
fn read_declared_len(header: &[u8]) -> (r: Option<usize>)
    ensures
        r == declared_len(header@),
{
    serde_json::from_slice::<Metadata>(header).ok().map(|m| m.data_len())
}

/// The length of a file's header: the 64-bit little-endian number that the file
/// starts with.
pub open spec fn header_len(bytes: Seq<u8>) -> int {
    le32(bytes, 0) as int + 0x1_0000_0000 * le32(bytes, 4) as int
}

/// A file whose whole header is there, but declares so much data that its own
/// length with them cannot be told in a machine word.
pub open spec fn oversized(bytes: Seq<u8>) -> bool {
    let n = header_len(bytes);
    &&& bytes.len() >= 8
    &&& 8 + n <= bytes.len()
    &&& declared_len(bytes.subrange(8, 8 + n)) matches Some(data) && data + 8 + n > usize::MAX
}

fn is_oversized(bytes: &[u8]) -> (r: bool)
    ensures
        r == oversized(bytes@),
{
    if bytes.len() < 8 {
        return false;
    }
    let n: u64 = u32_at(bytes, 0) as u64 + u32_at(bytes, 4) as u64 * 0x1_0000_0000;
    if n > (bytes.len() - 8) as u64 {
        return false;
    }
    let end: usize = 8 + n as usize;
    match read_declared_len(vstd::slice::slice_subrange(bytes, 8, end)) {
        Some(data) => data.checked_add(end).is_none(),
        None => false,
    }
}

/// `SafeTensors::deserialize`: the tensors of the file, each with exactly the
/// bytes its shape and type ask for, or a description of what is wrong. Which
/// of several faults is described is left open. The reader adds the declared
/// length of the data to that of the header without a check, so the file must
/// not be oversized.
#[verifier::external_body]
fn read_tensors<'a>(bytes: &'a [u8]) -> (r: Result<SafeTensors<'a>, String>)
    requires
        !oversized(bytes@),
    ensures
        match r {
            Ok(st) => {
                &&& file_tensors(bytes@) == Some(tensors_of(st))
                &&& forall|n: Seq<char>| #[trigger]
                    tensors_of(st).contains_key(n) ==> sized(tensors_of(st)[n])
            },
            Err(_) => file_tensors(bytes@) is None,
        },
{
    SafeTensors::deserialize(bytes).map_err(|e| e.to_string())
}

/// A tensor as the file holds it.
#[derive(Debug)]
pub struct RawTensor<'a> {
    pub kind: Kind,
    pub dtype: String,
    pub shape: Vec<usize>,
    pub data: &'a [u8],
}

impl<'a> View for RawTensor<'a> {
    type V = TensorEntry;

    open spec fn view(&self) -> TensorEntry {
        TensorEntry {
            kind: self.kind,
            dtype: self.dtype@,
            shape: self.shape@,
            data: self.data@,
        }
    }
}

/// `SafeTensors::tensor` and the accessors of its result: the tensor of that
/// name with its type, shape and bytes, nothing where the file has none.
#[verifier::external_body]
fn find_tensor<'a>(st: &SafeTensors<'a>, name: &str) -> (r: Option<RawTensor<'a>>)
    ensures
        match r {
            Some(t) => tensors_of(*st).contains_key(name@) && tensors_of(*st)[name@] == t@,
            None => !tensors_of(*st).contains_key(name@),
        },
{
    let t = st.tensor(name).ok()?;
    let kind = match t.dtype() {
        Dtype::BF16 => Kind::Brain,
        Dtype::F16 => Kind::Half,
        Dtype::F32 => Kind::Full,
        _ => Kind::Other,
    };
    let dtype = format!("{:?}", t.dtype());
    Some(RawTensor { kind, dtype, shape: t.shape().to_vec(), data: t.data() })
}

/// The elements of a tensor, as bit patterns.
#[derive(Debug)]
pub enum Words {
    Brain(Vec<u16>),
    Half(Vec<u16>),
    Full(Vec<u32>),
}

/// [`Words`] as sequences.
pub enum WordsView {
    Brain(Seq<u16>),
    Half(Seq<u16>),
    Full(Seq<u32>),
}

impl View for Words {
    type V = WordsView;

    open spec fn view(&self) -> WordsView {
        match *self {
            Words::Brain(v) => WordsView::Brain(v@),
            Words::Half(v) => WordsView::Half(v@),
            Words::Full(v) => WordsView::Full(v@),
        }
    }
}

/// 16-bit little-endian words.
pub open spec fn words16(data: Seq<u8>) -> Seq<u16> {
    Seq::new(data.len() / 2, |i: int| le16(data, 2 * i) as u16)
}

/// 32-bit little-endian words.
pub open spec fn words32(data: Seq<u8>) -> Seq<u32> {
    Seq::new(data.len() / 4, |i: int| le32(data, 4 * i) as u32)
}

/// The elements of a tensor whose type can be used.
pub open spec fn words_of(t: TensorEntry) -> WordsView {
    match t.kind {
        Kind::Brain => WordsView::Brain(words16(t.data)),
        Kind::Half => WordsView::Half(words16(t.data)),
        _ => WordsView::Full(words32(t.data)),
    }
}

fn decode16(data: &[u8]) -> (r: Vec<u16>)
    ensures
        r@ == words16(data@),
{
    let mut out: Vec<u16> = Vec::new();
    let n: usize = data.len() / 2;
    let mut i: usize = 0;
    while i < n
        invariant
            i <= n == data.len() / 2,
            out@ =~= words16(data@).take(i as int),
        decreases n - i,
    {
        out.push(u16_at(data, 2 * i));
        i = i + 1;
    }
    assert(out@ =~= words16(data@));
    out
}

fn decode32(data: &[u8]) -> (r: Vec<u32>)
    ensures
        r@ == words32(data@),
{
    let mut out: Vec<u32> = Vec::new();
    let n: usize = data.len() / 4;
    let mut i: usize = 0;
    while i < n
        invariant
            i <= n == data.len() / 4,
            out@ =~= words32(data@).take(i as int),
        decreases n - i,
    {
        out.push(u32_at(data, 4 * i));
        i = i + 1;
    }
    assert(out@ =~= words32(data@));
    out
}

fn decode(t: &RawTensor<'_>) -> (r: Words)
    requires
        t.kind != Kind::Other,
    ensures
        r@ == words_of(t@),
{
    match t.kind {
        Kind::Brain => Words::Brain(decode16(t.data)),
        Kind::Half => Words::Half(decode16(t.data)),
        _ => Words::Full(decode32(t.data)),
    }
}

/// A tensor on the host: its elements in row-major order.
#[derive(Debug)]
pub struct HostTensor {
    pub words: Words,
    pub shape: Vec<usize>,
}

/// A tensor that is not in the file.
pub open spec fn missing(name: Seq<char>) -> ErrorView {
    ErrorView::MissingTensor { name }
}

/// A tensor whose rank is not the one asked for.
pub open spec fn wrong_rank(name: Seq<char>, rank: int, got: Seq<usize>) -> ErrorView {
    ErrorView::TensorShape { name, expected: digits(rank as nat) + "D"@, got }
}

/// A tensor whose type cannot be used.
pub open spec fn wrong_dtype(name: Seq<char>, t: TensorEntry) -> ErrorView {
    ErrorView::TensorDtype { name, dtype: t.dtype }
}

/// Why a tensor of a given rank cannot be loaded, if it cannot.
pub open spec fn load_error(
    tensors: Map<Seq<char>, TensorEntry>,
    name: Seq<char>,
    rank: int,
) -> Option<ErrorView> {
    if !tensors.contains_key(name) {
        Some(missing(name))
    } else if tensors[name].kind == Kind::Other {
        Some(wrong_dtype(name, tensors[name]))
    } else if tensors[name].shape.len() != rank {
        Some(wrong_rank(name, rank, tensors[name].shape))
    } else {
        None
    }
}

/// Why a table cannot be loaded row by row, if it cannot.
pub open spec fn rows_error(tensors: Map<Seq<char>, TensorEntry>, name: Seq<char>) -> Option<
    ErrorView,
> {
    if !tensors.contains_key(name) {
        Some(missing(name))
    } else if tensors[name].shape.len() != 2 {
        Some(wrong_rank(name, 2, tensors[name].shape))
    } else if tensors[name].kind == Kind::Other {
        Some(wrong_dtype(name, tensors[name]))
    } else {
        None
    }
}

/// What loading a tensor gives.
pub open spec fn loaded(
    r: Result<HostTensor, TtsError>,
    tensors: Map<Seq<char>, TensorEntry>,
    name: Seq<char>,
    refusal: Option<ErrorView>,
) -> bool {
    match r {
        Ok(t) => refusal is None && t.words@ == words_of(tensors[name]) && t.shape@
            == tensors[name].shape,
        Err(e) => refusal == Some(e@),
    }
}

/// Refuses a shape of another rank.
pub fn check_rank(name: &str, shape: &Vec<usize>, rank: usize) -> (r: Result<(), TtsError>)
    ensures
        match r {
            Ok(_) => shape.len() == rank,
            Err(e) => shape.len() != rank && e@ == wrong_rank(name@, rank as int, shape@),
        },
{
    if shape.len() == rank {
        Ok(())
    } else {
        Err(
            TtsError::TensorShape {
                name: name.to_string(),
                expected: decimal(rank as u64).concat("D"),
                got: copy_shape(shape),
            },
        )
    }
}

/// A copy of a shape.
pub fn copy_shape(shape: &Vec<usize>) -> (r: Vec<usize>)
    ensures
        r@ == shape@,
{
    let r: Vec<usize> = vstd::slice::slice_to_vec(shape.as_slice());
    assert(r@ =~= shape@);
    r
}

/// What is said of an oversized file.
pub const OVERSIZED_DETAIL: &'static str = "the header declares more data than can be addressed";

/// An open weight file.
pub struct WeightFile<'a> {
    st: SafeTensors<'a>,
}

impl<'a> View for WeightFile<'a> {
    type V = Map<Seq<char>, TensorEntry>;

    closed spec fn view(&self) -> Map<Seq<char>, TensorEntry> {
        tensors_of(self.st)
    }
}

impl<'a> WeightFile<'a> {
    /// Every tensor has the bytes that its shape asks for.
    pub open spec fn wf(&self) -> bool {
        forall|n: Seq<char>| #[trigger] self@.contains_key(n) ==> sized(self@[n])
    }

    /// Reads the header of a weight file's bytes. `path` only names the file in
    /// the error. An oversized file is refused; what the error says of any other
    /// fault is the reader's wording.
    pub fn open(path: &str, bytes: &'a [u8]) -> (r: Result<Self, TtsError>)
        ensures
            match r {
                Ok(f) => !oversized(bytes@) && f.wf() && file_tensors(bytes@) == Some(f@),
                Err(e) => {
                    &&& oversized(bytes@) || file_tensors(bytes@) is None
                    &&& e@ matches ErrorView::BadSafetensors { path: p, detail }
                    &&& p == path@
                    &&& oversized(bytes@) ==> detail == OVERSIZED_DETAIL@
                },
            },
    {
        if is_oversized(bytes) {
            return Err(
                TtsError::BadSafetensors {
                    path: path.to_string(),
                    detail: OVERSIZED_DETAIL.to_string(),
                },
            );
        }
        match read_tensors(bytes) {
            Ok(st) => Ok(WeightFile { st }),
            Err(detail) => Err(TtsError::BadSafetensors { path: path.to_string(), detail }),
        }
    }

    /// Whether the file holds a tensor of that name.
    pub fn has(&self, name: &str) -> (r: bool)
        ensures
            r == self@.contains_key(name@),
    {
        find_tensor(&self.st, name).is_some()
    }

    /// The shape of a tensor; empty where the file has none of that name.
    pub fn shape(&self, name: &str) -> (r: Vec<usize>)
        ensures
            r@ == if self@.contains_key(name@) {
                self@[name@].shape
            } else {
                Seq::empty()
            },
    {
        match find_tensor(&self.st, name) {
            Some(t) => t.shape,
            None => {
                let none: Vec<usize> = Vec::new();
                assert(none@ =~= Seq::empty());
                none
            },
        }
    }

    fn usable(&self, name: &str, rank: usize) -> (r: Result<RawTensor<'a>, TtsError>)
        ensures
            match r {
                Ok(t) => load_error(self@, name@, rank as int) is None && self@[name@] == t@,
                Err(e) => load_error(self@, name@, rank as int) == Some(e@),
            },
    {
        let t: RawTensor<'a> = match find_tensor(&self.st, name) {
            Some(t) => t,
            None => {
                return Err(TtsError::MissingTensor { name: name.to_string() });
            },
        };
        if t.kind == Kind::Other {
            return Err(TtsError::TensorDtype { name: name.to_string(), dtype: t.dtype });
        }
        check_rank(name, &t.shape, rank)?;
        Ok(t)
    }

    fn table(&self, name: &str) -> (r: Result<RawTensor<'a>, TtsError>)
        ensures
            match r {
                Ok(t) => rows_error(self@, name@) is None && self@[name@] == t@,
                Err(e) => rows_error(self@, name@) == Some(e@),
            },
    {
        let t: RawTensor<'a> = match find_tensor(&self.st, name) {
            Some(t) => t,
            None => {
                return Err(TtsError::MissingTensor { name: name.to_string() });
            },
        };
        check_rank(name, &t.shape, 2)?;
        if t.kind == Kind::Other {
            return Err(TtsError::TensorDtype { name: name.to_string(), dtype: t.dtype });
        }
        Ok(t)
    }

    /// Whether a tensor of a given rank can be loaded, without loading it.
    pub fn can_load(&self, name: &str, rank: usize) -> (r: Result<(), TtsError>)
        ensures
            match r {
                Ok(_) => load_error(self@, name@, rank as int) is None,
                Err(e) => load_error(self@, name@, rank as int) == Some(e@),
            },
    {
        match self.usable(name, rank) {
            Ok(_) => Ok(()),
            Err(e) => Err(e),
        }
    }

    /// Whether a table can be loaded row by row, without loading it.
    pub fn can_gather(&self, name: &str) -> (r: Result<(), TtsError>)
        ensures
            match r {
                Ok(_) => rows_error(self@, name@) is None,
                Err(e) => rows_error(self@, name@) == Some(e@),
            },
    {
        match self.table(name) {
            Ok(_) => Ok(()),
            Err(e) => Err(e),
        }
    }

    /// A tensor of a given rank.
    pub fn tensor(&self, name: &str, rank: usize) -> (r: Result<HostTensor, TtsError>)
        ensures
            loaded(r, self@, name@, load_error(self@, name@, rank as int)),
    {
        let t: RawTensor<'a> = self.usable(name, rank)?;
        let words: Words = decode(&t);
        Ok(HostTensor { words, shape: t.shape })
    }

    /// A vector.
    pub fn tensor1(&self, name: &str) -> (r: Result<HostTensor, TtsError>)
        ensures
            loaded(r, self@, name@, load_error(self@, name@, 1)),
    {
        self.tensor(name, 1)
    }

    /// A matrix.
    pub fn tensor2(&self, name: &str) -> (r: Result<HostTensor, TtsError>)
        ensures
            loaded(r, self@, name@, load_error(self@, name@, 2)),
    {
        self.tensor(name, 2)
    }

    /// A tensor with three axes.
    pub fn tensor3(&self, name: &str) -> (r: Result<HostTensor, TtsError>)
        ensures
            loaded(r, self@, name@, load_error(self@, name@, 3)),
    {
        self.tensor(name, 3)
    }

    /// A vector that may be absent.
    pub fn try_tensor1(&self, name: &str) -> (r: Result<Option<HostTensor>, TtsError>)
        ensures
            !self@.contains_key(name@) ==> r matches Ok(None),
            self@.contains_key(name@) ==> match r {
                Ok(Some(t)) => loaded(Ok(t), self@, name@, load_error(self@, name@, 1)),
                Ok(None) => false,
                Err(e) => load_error(self@, name@, 1) == Some(e@),
            },
    {
        if self.has(name) {
            match self.tensor(name, 1) {
                Ok(t) => Ok(Some(t)),
                Err(e) => Err(e),
            }
        } else {
            Ok(None)
        }
    }

    /// A table that is gathered row by row on the host, where uploading all of
    /// it buys nothing. Its elements are still as stored; the caller narrows
    /// them to half precision for a [`HostTable`].
    pub fn rows_f16(&self, name: &str) -> (r: Result<HostTensor, TtsError>)
        ensures
            loaded(r, self@, name@, rows_error(self@, name@)),
    {
        let t: RawTensor<'a> = self.table(name)?;
        let words: Words = decode(&t);
        Ok(HostTensor { words, shape: t.shape })
    }
}

/// A row-major half-precision matrix kept in host memory.
#[derive(Debug)]
pub struct HostTable {
    data: Vec<u16>,
    rows: usize,
    cols: usize,
}

/// A matrix by its rows.
pub struct TableView {
    pub data: Seq<u16>,
    pub rows: int,
    pub cols: int,
}

impl View for HostTable {
    type V = TableView;

    closed spec fn view(&self) -> TableView {
        TableView { data: self.data@, rows: self.rows as int, cols: self.cols as int }
    }
}

/// Row `i` of a table.
pub open spec fn row(t: TableView, i: int) -> Seq<u16> {
    t.data.subrange(i * t.cols, (i + 1) * t.cols)
}

/// The rows of some ids, one behind the other.
pub open spec fn gathered(t: TableView, ids: Seq<u32>) -> Seq<u16>
    decreases ids.len(),
{
    if ids.len() == 0 {
        Seq::empty()
    } else {
        gathered(t, ids.drop_last()) + row(t, ids.last() as int)
    }
}

/// The first id from `from` on that is no row.
pub open spec fn first_stray(ids: Seq<u32>, rows: int, from: int) -> Option<int>
    decreases ids.len() - from,
{
    if from >= ids.len() {
        None
    } else if ids[from] >= rows {
        Some(from)
    } else {
        first_stray(ids, rows, from + 1)
    }
}

/// The error of a text id that is no row.
pub open spec fn stray_id(id: u32, rows: int) -> ErrorView {
    ErrorView::InvalidPrompt(
        "text token id "@ + digits(id as nat) + " is out of range ("@ + digits(rows as nat)
            + " rows)"@,
    )
}

impl HostTable {
    /// The data are exactly the rows.
    pub closed spec fn wf(&self) -> bool {
        self.data@.len() == self.rows * self.cols
    }

    /// A table holds as many elements as its rows and columns make up.
    pub proof fn rows_fill_the_table(&self)
        requires
            self.wf(),
        ensures
            self@.data.len() == self@.rows * self@.cols,
            self@.rows >= 0,
            self@.cols >= 0,
    {
    }

    /// A table of `rows` rows with `cols` elements each; nothing where the data
    /// are not that many.
    pub fn new(data: Vec<u16>, rows: usize, cols: usize) -> (r: Option<HostTable>)
        ensures
            match r {
                Some(t) => t.wf() && t@ == (TableView {
                    data: data@,
                    rows: rows as int,
                    cols: cols as int,
                }),
                None => data.len() != rows * cols,
            },
    {
        let size: Option<usize> = rows.checked_mul(cols);
        match size {
            Some(n) => if n == data.len() {
                Some(HostTable { data, rows, cols })
            } else {
                None
            },
            None => None,
        }
    }

    /// The number of rows.
    pub fn rows(&self) -> (r: usize)
        ensures
            r == self@.rows,
    {
        self.rows
    }

    /// The number of elements in a row.
    pub fn cols(&self) -> (r: usize)
        ensures
            r == self@.cols,
    {
        self.cols
    }

    /// The rows of `ids`, one behind the other.
    pub fn gather(&self, ids: &[u32]) -> (r: Result<Vec<u16>, TtsError>)
        requires
            self.wf(),
        ensures
            match (r, first_stray(ids@, self@.rows, 0)) {
                (Ok(v), None) => v@ == gathered(self@, ids@),
                (Err(e), Some(k)) => e@ == stray_id(ids[k], self@.rows),
                _ => false,
            },
    {
        let mut out: Vec<u16> = Vec::new();
        let mut k: usize = 0;
        assert(ids@.take(0) =~= Seq::empty());
        while k < ids.len()
            invariant
                self.wf(),
                k <= ids.len(),
                first_stray(ids@, self@.rows, 0) == first_stray(ids@, self@.rows, k as int),
                out@ == gathered(self@, ids@.take(k as int)),
            decreases ids.len() - k,
        {
            let i: usize = ids[k] as usize;
            if i >= self.rows {
                return Err(
                    TtsError::InvalidPrompt(
                        "text token id ".to_string().concat(decimal(i as u64).as_str()).concat(
                            " is out of range (",
                        ).concat(decimal(self.rows as u64).as_str()).concat(" rows)"),
                    ),
                );
            }
            assert(0 <= i * self.cols && i * self.cols + self.cols == (i + 1) * self.cols && (i + 1)
                * self.cols <= self.rows * self.cols) by (nonlinear_arith)
                requires
                    i + 1 <= self.rows,
                    self.cols >= 0,
                    i >= 0,
            ;
            assert(self.rows * self.cols == self.data.len());
            let start: usize = i * self.cols;
            let part: &[u16] = vstd::slice::slice_subrange(
                self.data.as_slice(),
                start,
                start + self.cols,
            );
            proof {
                let t = ids@.take(k as int + 1);
                assert(t.drop_last() =~= ids@.take(k as int));
                assert(t.last() == ids@[k as int]);
                assert(part@ =~= row(self@, i as int));
            }
            out.extend_from_slice(part);
            k = k + 1;
        }
        assert(ids@.take(k as int) =~= ids@);
        Ok(out)
    }
}

/// How many elements there are.
pub open spec fn word_count(w: WordsView) -> int {
    match w {
        WordsView::Brain(v) => v.len() as int,
        WordsView::Half(v) => v.len() as int,
        WordsView::Full(v) => v.len() as int,
    }
}

/// A loaded tensor has exactly as many elements as its shape says.
pub proof fn tensors_fill_their_shape(t: TensorEntry)
    requires
        sized(t),
        t.kind != Kind::Other,
    ensures
        word_count(words_of(t)) == volume(t.shape),
{
}

/// Gathering puts element `j` of the `k`-th id's row at place `j` of the `k`-th
/// row of the result.
pub proof fn gathering_keeps_rows(t: TableView, ids: Seq<u32>, k: int, j: int)
    requires
        t.rows >= 0,
        t.cols >= 0,
        t.data.len() == t.rows * t.cols,
        first_stray(ids, t.rows, 0) is None,
        0 <= k < ids.len(),
        0 <= j < t.cols,
    ensures
        gathered(t, ids).len() == ids.len() * t.cols,
        0 <= k * t.cols + j < gathered(t, ids).len(),
        gathered(t, ids)[k * t.cols + j] == t.data[ids[k] * t.cols + j],
    decreases ids.len(),
{
    lemma_gathered_len(t, ids);
    lemma_no_stray(ids, t.rows, 0);
    let rest = ids.drop_last();
    lemma_stray_prefix(ids, t.rows, 0);
    lemma_gathered_len(t, rest);
    let id = ids[k] as int;
    assert(k * t.cols + j < (k + 1) * t.cols <= ids.len() * t.cols && 0 <= k * t.cols)
        by (nonlinear_arith)
        requires
            0 <= k < ids.len(),
            0 <= j < t.cols,
    ;
    if k < rest.len() {
        gathering_keeps_rows(t, rest, k, j);
    } else {
        assert(0 <= id * t.cols && (id + 1) * t.cols == id * t.cols + t.cols && (id + 1) * t.cols
            <= t.rows * t.cols) by (nonlinear_arith)
            requires
                0 <= id < t.rows,
                0 <= t.cols,
        ;
        assert(rest.len() * t.cols == k * t.cols);
        assert(gathered(t, ids)[k * t.cols + j] == row(t, id)[j]);
    }
}

proof fn lemma_no_stray(ids: Seq<u32>, rows: int, from: int)
    requires
        0 <= from,
        first_stray(ids, rows, from) is None,
    ensures
        forall|k: int| from <= k < ids.len() ==> #[trigger] ids[k] < rows,
    decreases ids.len() - from,
{
    if from < ids.len() {
        lemma_no_stray(ids, rows, from + 1);
    }
}

proof fn lemma_stray_prefix(ids: Seq<u32>, rows: int, from: int)
    requires
        0 <= from,
        ids.len() > 0,
        first_stray(ids, rows, from) is None,
    ensures
        first_stray(ids.drop_last(), rows, from) is None,
    decreases ids.len() - from,
{
    if from < ids.len() - 1 {
        lemma_stray_prefix(ids, rows, from + 1);
    }
}

proof fn lemma_gathered_len(t: TableView, ids: Seq<u32>)
    requires
        t.rows >= 0,
        t.cols >= 0,
        t.data.len() == t.rows * t.cols,
        first_stray(ids, t.rows, 0) is None,
    ensures
        gathered(t, ids).len() == ids.len() * t.cols,
    decreases ids.len(),
{
    if ids.len() > 0 {
        let rest = ids.drop_last();
        lemma_stray_prefix(ids, t.rows, 0);
        lemma_gathered_len(t, rest);
        lemma_no_stray(ids, t.rows, 0);
        let id = ids.last() as int;
        assert(ids[ids.len() - 1] < t.rows);
        assert(0 <= id * t.cols && (id + 1) * t.cols == id * t.cols + t.cols && (id + 1) * t.cols
            <= t.rows * t.cols) by (nonlinear_arith)
            requires
                0 <= id < t.rows,
                0 <= t.cols,
        ;
        assert(ids.len() * t.cols == rest.len() * t.cols + t.cols) by (nonlinear_arith)
            requires
                ids.len() == rest.len() + 1,
        ;
    }
}

/// The first id that is no row is the first that is not below the number of
/// rows; where all are, there is none.
pub proof fn strays_are_found_in_order(ids: Seq<u32>, rows: int, k: int)
    requires
        0 <= k < ids.len(),
    ensures
        ids[k] >= rows && (forall|i: int| 0 <= i < k ==> #[trigger] ids[i] < rows) ==> first_stray(
            ids,
            rows,
            0,
        ) == Some(k),
        (forall|i: int| 0 <= i < ids.len() ==> #[trigger] ids[i] < rows) <==> first_stray(
            ids,
            rows,
            0,
        ) is None,
{
    if ids[k] >= rows && (forall|i: int| 0 <= i < k ==> #[trigger] ids[i] < rows) {
        lemma_stray_skips(ids, rows, 0, k);
    }
    if forall|i: int| 0 <= i < ids.len() ==> #[trigger] ids[i] < rows {
        lemma_stray_skips(ids, rows, 0, ids.len() as int);
    }
    if first_stray(ids, rows, 0) is None {
        lemma_no_stray(ids, rows, 0);
    }
}

proof fn lemma_stray_skips(ids: Seq<u32>, rows: int, from: int, to: int)
    requires
        0 <= from <= to <= ids.len(),
        forall|i: int| from <= i < to ==> #[trigger] ids[i] < rows,
    ensures
        first_stray(ids, rows, from) == first_stray(ids, rows, to),
    decreases to - from,
{
    if from < to {
        lemma_stray_skips(ids, rows, from + 1, to);
    }
}

/// A tensor can be loaded exactly where it is there, its type can be used and
/// its rank is the one asked for; a table where it is there, is a matrix and its
/// type can be used. What is missing is told before anything else; of the other
/// two faults the type comes first for a tensor and the rank for a table.
pub proof fn tensors_are_refused_for_what_they_lack(
    tensors: Map<Seq<char>, TensorEntry>,
    name: Seq<char>,
    rank: int,
)
    ensures
        ({
            let t = tensors[name];
            let usable = t.kind == Kind::Brain || t.kind == Kind::Half || t.kind == Kind::Full;
            &&& load_error(tensors, name, rank) is None <==> tensors.contains_key(name) && usable
                && t.shape.len() == rank
            &&& rows_error(tensors, name) is None <==> tensors.contains_key(name) && usable
                && t.shape.len() == 2
            &&& !tensors.contains_key(name) ==> load_error(tensors, name, rank) == Some(
                ErrorView::MissingTensor { name },
            ) && rows_error(tensors, name) == Some(ErrorView::MissingTensor { name })
            &&& tensors.contains_key(name) && !usable ==> load_error(tensors, name, rank) == Some(
                ErrorView::TensorDtype { name, dtype: t.dtype },
            )
            &&& tensors.contains_key(name) && t.shape.len() != 2 ==> rows_error(tensors, name)
                == Some(ErrorView::TensorShape { name, expected: digits(2) + "D"@, got: t.shape })
            &&& tensors.contains_key(name) && usable && t.shape.len() != rank ==> load_error(
                tensors,
                name,
                rank,
            ) == Some(
                ErrorView::TensorShape { name, expected: digits(rank as nat) + "D"@, got: t.shape },
            )
            &&& tensors.contains_key(name) && !usable && t.shape.len() == 2 ==> rows_error(
                tensors,
                name,
            ) == Some(ErrorView::TensorDtype { name, dtype: t.dtype })
        }),
{
}

/// The elements of a tensor stand one behind the other in its bytes, low byte
/// first, two bytes for a 16-bit type and four for single precision. A shape
/// stands for the product of its extents.
pub proof fn elements_are_read_in_order(t: TensorEntry, i: int, n: usize)
    ensures
        match words_of(t) {
            WordsView::Brain(w) => {
                &&& t.kind == Kind::Brain
                &&& w.len() == t.data.len() / 2
                &&& 0 <= i < w.len() ==> w[i] == t.data[2 * i] + 256 * t.data[2 * i + 1]
            },
            WordsView::Half(w) => {
                &&& t.kind == Kind::Half
                &&& w.len() == t.data.len() / 2
                &&& 0 <= i < w.len() ==> w[i] == t.data[2 * i] + 256 * t.data[2 * i + 1]
            },
            WordsView::Full(w) => {
                &&& t.kind != Kind::Brain && t.kind != Kind::Half
                &&& w.len() == t.data.len() / 4
                &&& 0 <= i < w.len() ==> w[i] == t.data[4 * i] + 256 * t.data[4 * i + 1] + 65536
                    * t.data[4 * i + 2] + 16777216 * t.data[4 * i + 3]
            },
        },
        volume(Seq::empty()) == 1,
        volume(t.shape.push(n)) == volume(t.shape) * n,
{
    assert(t.shape.push(n).drop_last() =~= t.shape);
}

/// The length of a file's header is the number in its first eight bytes, low
/// byte first.
pub proof fn headers_start_with_their_length(bytes: Seq<u8>)
    requires
        bytes.len() >= 8,
    ensures
        header_len(bytes) == bytes[0] + 0x100 * bytes[1] + 0x1_0000 * bytes[2] + 0x100_0000
            * bytes[3] + 0x1_0000_0000 * bytes[4] + 0x100_0000_0000 * bytes[5] + 0x1_0000_0000_0000
            * bytes[6] + 0x100_0000_0000_0000 * bytes[7],
{
}

/// A tensor that was loaded has the elements and the shape that the file holds
/// under its name, and comes out exactly where nothing is wrong with it.
pub proof fn loading_gives_what_the_file_holds(
    r: Result<HostTensor, TtsError>,
    tensors: Map<Seq<char>, TensorEntry>,
    name: Seq<char>,
    refusal: Option<ErrorView>,
)
    requires
        loaded(r, tensors, name, refusal),
    ensures
        r is Ok <==> refusal is None,
        r matches Ok(t) ==> t.shape@ == tensors[name].shape && t.words@ == words_of(tensors[name]),
        r matches Err(e) ==> refusal == Some(e@),
{
}

/// An id that is no row is told with the number of rows.
pub proof fn stray_ids_are_told(id: u32, rows: int)
    ensures
        stray_id(id, rows) == ErrorView::InvalidPrompt(
            "text token id "@ + digits(id as nat) + " is out of range ("@ + digits(rows as nat)
                + " rows)"@,
        ),
{
}

/// A file is oversized only where its whole header is there, and then exactly
/// where the eight bytes of the length, the header and the data that it declares
/// are more than a machine word can count.
pub proof fn oversized_files_cannot_be_counted(bytes: Seq<u8>, n: int)
    requires
        bytes.len() >= 8,
        n == header_len(bytes),
    ensures
        n + 8 > bytes.len() ==> !oversized(bytes),
        n + 8 <= bytes.len() ==> match declared_len(bytes.subrange(8, 8 + n)) {
            Some(data) => oversized(bytes) <==> 8 + n + data > usize::MAX,
            None => !oversized(bytes),
        },
{
}

/// Elements are seen as they are, with their type.
pub proof fn elements_are_seen_as_they_are(w: Words)
    ensures
        match (w, w@) {
            (Words::Brain(v), WordsView::Brain(s)) => s == v@,
            (Words::Half(v), WordsView::Half(s)) => s == v@,
            (Words::Full(v), WordsView::Full(s)) => s == v@,
            _ => false,
        },
{
}

} // verus!
