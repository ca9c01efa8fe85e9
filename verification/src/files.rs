//! Operations on single remote files.
use vstd::prelude::*;
use vstd::string::*;
use vstd::utf8::*;

use crate::paths::{canon_remote, canonical};
use crate::remote::{
    after, asked, lemma_after_step, lemma_asked_at, lemma_asked_len, lemma_first_reply,
    lemma_stays_over, unexpected, unexpected_reply, Attrs, Reply, ReplyView, Request, Step, StepView,
};

verus! {

/// The largest file that is read.
pub const MAX_READ_BYTES: u64 = 10_485_760;

/// How much of a file is searched for a zero byte.
pub const BINARY_SNIFF_BYTES: usize = 8192;

/// What reading a file gives.
#[derive(Clone, Debug, PartialEq, Eq)]
pub enum ReadResult<S = String> {
    Text { content: S, size: u64 },
    Binary { size: u64 },
    TooLarge { size: u64, limit: u64 },
}

impl DeepView for ReadResult {
    type V = ReadResult<Seq<char>>;

    open spec fn deep_view(&self) -> ReadResult<Seq<char>> {
        match self {
            ReadResult::Text { content, size } => ReadResult::Text {
                content: content@,
                size: *size,
            },
            ReadResult::Binary { size } => ReadResult::Binary { size: *size },
            ReadResult::TooLarge { size, limit } => ReadResult::TooLarge {
                size: *size,
                limit: *limit,
            },
        }
    }
}

/// Calls `String::from_utf8`, which takes the bytes as UTF-8 and refuses them
/// where they are not valid.
#[verifier::external_body]
fn from_utf8(bytes: Vec<u8>) -> (r: Option<String>)
    ensures
        r is Some <==> valid_utf8(bytes@),
        r is Some ==> r->0@ == decode_utf8(bytes@),
{
    String::from_utf8(bytes).ok()
}

/// Whether a zero byte stands among the first bytes of a file.
pub open spec fn looks_binary(bytes: Seq<u8>) -> bool {
    exists|i: int| 0 <= i < bytes.len() && i < BINARY_SNIFF_BYTES && #[trigger] bytes[i] == 0
}

/// What the contents of a file are read as: text, unless a zero byte stands
/// among the first of them or they are not valid UTF-8.
pub open spec fn content_of(bytes: Seq<u8>, size: u64) -> ReadResult<Seq<char>> {
    if !looks_binary(bytes) && valid_utf8(bytes) {
        ReadResult::Text { content: decode_utf8(bytes), size }
    } else {
        ReadResult::Binary { size }
    }
}

/// Takes the contents of a file as text or as binary.
pub fn classify(bytes: Vec<u8>, size: u64) -> (r: ReadResult)
    ensures
        r.deep_view() == content_of(bytes@, size),
{
    let mut i: usize = 0;
    while i < bytes.len() && i < BINARY_SNIFF_BYTES
        invariant
            i <= bytes@.len(),
            forall|j: int| 0 <= j < i ==> #[trigger] bytes@[j] != 0,
        decreases bytes@.len() - i,
    {
        if bytes[i] == 0 {
            return ReadResult::Binary { size };
        }
        i = i + 1;
    }
    match from_utf8(bytes) {
        Some(content) => ReadResult::Text { content, size },
        None => ReadResult::Binary { size },
    }
}

/// Reading a file: first its size is asked for, then its contents.
pub enum ReadFile<S = String> {
    Sizing { path: S },
    Reading { size: u64 },
}

impl View for ReadFile {
    type V = ReadFile<Seq<char>>;

    open spec fn view(&self) -> ReadFile<Seq<char>> {
        match self {
            ReadFile::Sizing { path } => ReadFile::Sizing { path: path@ },
            ReadFile::Reading { size } => ReadFile::Reading { size: *size },
        }
    }
}

/// The size that attributes report, zero where they do not.
pub open spec fn size_of(a: Attrs) -> u64 {
    match a.size {
        Some(n) => n,
        None => 0,
    }
}

/// How reading a file goes on: a file over the limit is not read.
pub open spec fn read_file_next(
    state: ReadFile<Seq<char>>,
    reply: ReplyView,
) -> StepView<ReadFile<Seq<char>>, ReadResult<Seq<char>>> {
    match (state, reply) {
        (_, Reply::Failed(e)) => Step::Finish(Err(e)),
        (_, Reply::Broken(e)) => Step::Finish(Err(e)),
        (ReadFile::Sizing { path }, Reply::Attrs(a)) => if size_of(a) > MAX_READ_BYTES {
            Step::Finish(Ok(ReadResult::TooLarge { size: size_of(a), limit: MAX_READ_BYTES }))
        } else {
            Step::Ask { request: Request::Read(path), state: ReadFile::Reading { size: size_of(a) } }
        },
        (ReadFile::Reading { size }, Reply::Bytes(b)) => Step::Finish(Ok(content_of(b, size))),
        _ => Step::Finish(Err(unexpected())),
    }
}

/// The start of reading a file.
pub open spec fn read_file_start(path: Seq<char>) -> StepView<
    ReadFile<Seq<char>>,
    ReadResult<Seq<char>>,
> {
    Step::Ask { request: Request::Stat(path), state: ReadFile::Sizing { path } }
}

/// Starts to read a file.
pub fn read_file(path: &str) -> (r: Step<ReadFile, ReadResult>)
    ensures
        r@ == read_file_start(path@),
{
    Step::Ask {
        request: Request::Stat(path.to_owned()),
        state: ReadFile::Sizing { path: path.to_owned() },
    }
}

impl ReadFile {
    /// Goes on reading a file.
    pub fn resume(self, reply: Reply) -> (r: Step<ReadFile, ReadResult>)
        ensures
            r@ == read_file_next(self@, reply@),
    {
        match (self, reply) {
            (_, Reply::Failed(e)) => Step::Finish(Err(e)),
            (_, Reply::Broken(e)) => Step::Finish(Err(e)),
            (ReadFile::Sizing { path }, Reply::Attrs(a)) => {
                let size: u64 = match a.size {
                    Some(n) => n,
                    None => 0,
                };
                if size > MAX_READ_BYTES {
                    Step::Finish(Ok(ReadResult::TooLarge { size, limit: MAX_READ_BYTES }))
                } else {
                    Step::Ask { request: Request::Read(path), state: ReadFile::Reading { size } }
                }
            },
            (ReadFile::Reading { size }, Reply::Bytes(b)) => Step::Finish(Ok(classify(b, size))),
            _ => Step::Finish(Err(unexpected_reply())),
        }
    }
}

/// Reading gives back what was written, where the file holds the bytes of the
/// written text and no zero byte is among the first of them.
pub proof fn read_gives_back_write(path: Seq<char>, content: Seq<char>, a: Attrs)
    requires
        size_of(a) <= MAX_READ_BYTES,
        !looks_binary(encode_utf8(content)),
    ensures
        after(
            |s: ReadFile<Seq<char>>, r: ReplyView| read_file_next(s, r),
            read_file_start(path),
            seq![Reply::Attrs(a), Reply::Bytes(encode_utf8(content))],
        ) == StepView::<ReadFile<Seq<char>>, ReadResult<Seq<char>>>::Finish(
            Ok(ReadResult::Text { content, size: size_of(a) }),
        ),
{
    reveal_with_fuel(after, 3);
    encode_utf8_valid_utf8(content);
    encode_utf8_decode_utf8(content);
    let replies = seq![ReplyView::Attrs(a), ReplyView::Bytes(encode_utf8(content))];
    assert(replies.drop_first()[0] == replies[1]);
}

/// Writing a file: one request.
pub struct WriteFile {}

impl View for WriteFile {
    type V = WriteFile;

    open spec fn view(&self) -> WriteFile {
        *self
    }
}

/// How an operation ends whose last request has nothing to report.
pub open spec fn done_or_error<S>(reply: ReplyView) -> StepView<S, ()> {
    match reply {
        Reply::Done => Step::Finish(Ok(())),
        Reply::Failed(e) => Step::Finish(Err(e)),
        Reply::Broken(e) => Step::Finish(Err(e)),
        _ => Step::Finish(Err(unexpected())),
    }
}

/// Ends an operation whose last request has nothing to report.
pub(crate) fn finish_done<S: View>(reply: Reply) -> (r: Step<S, ()>)
    ensures
        r@ == done_or_error::<S::V>(reply@),
{
    match reply {
        Reply::Done => Step::Finish(Ok(())),
        Reply::Failed(e) => Step::Finish(Err(e)),
        Reply::Broken(e) => Step::Finish(Err(e)),
        _ => Step::Finish(Err(unexpected_reply())),
    }
}

/// The start of writing a text to a file.
pub open spec fn write_file_start(path: Seq<char>, content: Seq<char>) -> StepView<WriteFile, ()> {
    Step::Ask { request: Request::Write { path, content }, state: WriteFile {  } }
}

/// Starts to write a text to a file.
pub fn write_file(path: &str, content: &str) -> (r: Step<WriteFile, ()>)
    ensures
        r@ == write_file_start(path@, content@),
{
    Step::Ask {
        request: Request::Write { path: path.to_owned(), content: content.to_owned() },
        state: WriteFile {  },
    }
}

impl WriteFile {
    /// Ends writing a file.
    pub fn resume(self, reply: Reply) -> (r: Step<WriteFile, ()>)
        ensures
            r@ == done_or_error::<WriteFile>(reply@),
    {
        finish_done(reply)
    }
}

/// What stands at a path.
#[derive(Clone, Copy, Debug, PartialEq, Eq)]
pub enum StatKind {
    File,
    Dir,
    Symlink,
}

/// What is reported of a file.
#[derive(Clone, Copy, Debug, PartialEq, Eq)]
pub struct FileStat {
    pub size: u64,
    /// Milliseconds since the epoch.
    pub mtime: u64,
    pub kind: StatKind,
}

impl DeepView for FileStat {
    type V = FileStat;

    open spec fn deep_view(&self) -> FileStat {
        *self
    }
}

/// A time in milliseconds, or the largest that 64 bits hold; zero where the
/// server gives none.
pub open spec fn millis(mtime: Option<u64>) -> u64 {
    match mtime {
        Some(m) => if m * 1000 <= u64::MAX {
            (m * 1000) as u64
        } else {
            u64::MAX
        },
        None => 0,
    }
}

/// Turns seconds into milliseconds.
pub fn to_millis(mtime: Option<u64>) -> (r: u64)
    ensures
        r == millis(mtime),
{
    match mtime {
        Some(m) => if m <= u64::MAX / 1000 {
            m * 1000
        } else {
            u64::MAX
        },
        None => 0,
    }
}

/// What attributes say of a file; a symbolic link is one whatever else they say.
pub open spec fn stat_of(a: Attrs) -> FileStat {
    FileStat {
        size: size_of(a),
        mtime: millis(a.mtime),
        kind: if a.is_symlink {
            StatKind::Symlink
        } else if a.is_dir {
            StatKind::Dir
        } else {
            StatKind::File
        },
    }
}

/// Asking for the attributes of a file: one request.
pub struct StatFile {}

impl View for StatFile {
    type V = StatFile;

    open spec fn view(&self) -> StatFile {
        *self
    }
}

/// How asking for attributes ends.
pub open spec fn stat_next(reply: ReplyView) -> StepView<StatFile, FileStat> {
    match reply {
        Reply::Attrs(a) => Step::Finish(Ok(stat_of(a))),
        Reply::Failed(e) => Step::Finish(Err(e)),
        Reply::Broken(e) => Step::Finish(Err(e)),
        _ => Step::Finish(Err(unexpected())),
    }
}

/// The start of asking for attributes.
pub open spec fn stat_start(path: Seq<char>) -> StepView<StatFile, FileStat> {
    Step::Ask { request: Request::Lstat(path), state: StatFile {  } }
}

/// Starts to ask for the attributes of what stands at a path.
pub fn stat(path: &str) -> (r: Step<StatFile, FileStat>)
    ensures
        r@ == stat_start(path@),
{
    Step::Ask { request: Request::Lstat(path.to_owned()), state: StatFile {  } }
}

impl StatFile {
    /// Ends asking for attributes.
    pub fn resume(self, reply: Reply) -> (r: Step<StatFile, FileStat>)
        ensures
            r@ == stat_next(reply@),
    {
        match reply {
            Reply::Attrs(a) => {
                let kind = if a.is_symlink {
                    StatKind::Symlink
                } else if a.is_dir {
                    StatKind::Dir
                } else {
                    StatKind::File
                };
                let size: u64 = match a.size {
                    Some(n) => n,
                    None => 0,
                };
                Step::Finish(Ok(FileStat { size, mtime: to_millis(a.mtime), kind }))
            },
            Reply::Failed(e) => Step::Finish(Err(e)),
            Reply::Broken(e) => Step::Finish(Err(e)),
            _ => Step::Finish(Err(unexpected_reply())),
        }
    }
}

/// Resolving a path on the server: one request.
pub struct Canonicalize {}

impl View for Canonicalize {
    type V = Canonicalize;

    open spec fn view(&self) -> Canonicalize {
        *self
    }
}

/// How resolving a path ends.
pub open spec fn canonicalize_next(reply: ReplyView) -> StepView<Canonicalize, Seq<char>> {
    match reply {
        Reply::Path(p) => Step::Finish(Ok(canonical(p))),
        Reply::Failed(e) => Step::Finish(Err(e)),
        Reply::Broken(e) => Step::Finish(Err(e)),
        _ => Step::Finish(Err(unexpected())),
    }
}

/// The start of resolving a path.
pub open spec fn canonicalize_start(path: Seq<char>) -> StepView<Canonicalize, Seq<char>> {
    Step::Ask { request: Request::Realpath(path), state: Canonicalize {  } }
}

/// Starts to resolve a path on the server.
pub fn canonicalize(path: &str) -> (r: Step<Canonicalize, String>)
    ensures
        r@ == canonicalize_start(path@),
{
    Step::Ask { request: Request::Realpath(path.to_owned()), state: Canonicalize {  } }
}

impl Canonicalize {
    /// Ends resolving a path.
    pub fn resume(self, reply: Reply) -> (r: Step<Canonicalize, String>)
        ensures
            r@ == canonicalize_next(reply@),
    {
        match reply {
            Reply::Path(p) => Step::Finish(Ok(canon_remote(p.as_str()))),
            Reply::Failed(e) => Step::Finish(Err(e)),
            Reply::Broken(e) => Step::Finish(Err(e)),
            _ => Step::Finish(Err(unexpected_reply())),
        }
    }
}

/// The message for a path at which something stands already.
pub open spec fn already_exists(path: Seq<char>) -> Seq<char> {
    "already exists: "@ + path
}

/// The message for a path at which nothing stands.
pub open spec fn not_found(path: Seq<char>) -> Seq<char> {
    "not found: "@ + path
}

pub(crate) fn already_exists_text(path: &str) -> (r: String)
    ensures
        r@ == already_exists(path@),
{
    "already exists: ".to_owned().concat(path)
}

/// Creating a file: first it is asked whether something stands there.
pub enum CreateFile<S = String> {
    Probing { path: S },
    Creating,
}

impl View for CreateFile {
    type V = CreateFile<Seq<char>>;

    open spec fn view(&self) -> CreateFile<Seq<char>> {
        match self {
            CreateFile::Probing { path } => CreateFile::Probing { path: path@ },
            CreateFile::Creating => CreateFile::Creating,
        }
    }
}

/// How creating a file goes on: nothing that stands there is touched.
pub open spec fn create_file_next(
    state: CreateFile<Seq<char>>,
    reply: ReplyView,
) -> StepView<CreateFile<Seq<char>>, ()> {
    match state {
        CreateFile::Probing { path } => match reply {
            Reply::Attrs(_) => Step::Finish(Err(already_exists(path))),
            Reply::Failed(_) | Reply::Broken(_) => Step::Ask {
                request: Request::Create(path),
                state: CreateFile::Creating,
            },
            _ => Step::Finish(Err(unexpected())),
        },
        CreateFile::Creating => done_or_error(reply),
    }
}

/// The start of creating a file.
pub open spec fn create_file_start(path: Seq<char>) -> StepView<CreateFile<Seq<char>>, ()> {
    Step::Ask { request: Request::Stat(path), state: CreateFile::Probing { path } }
}

/// Starts to create an empty file.
pub fn create_file(path: &str) -> (r: Step<CreateFile, ()>)
    ensures
        r@ == create_file_start(path@),
{
    Step::Ask {
        request: Request::Stat(path.to_owned()),
        state: CreateFile::Probing { path: path.to_owned() },
    }
}

impl CreateFile {
    /// Goes on creating a file.
    pub fn resume(self, reply: Reply) -> (r: Step<CreateFile, ()>)
        ensures
            r@ == create_file_next(self@, reply@),
    {
        match self {
            CreateFile::Probing { path } => match reply {
                Reply::Attrs(_) => Step::Finish(Err(already_exists_text(path.as_str()))),
                Reply::Failed(_) | Reply::Broken(_) => Step::Ask {
                    request: Request::Create(path),
                    state: CreateFile::Creating,
                },
                _ => Step::Finish(Err(unexpected_reply())),
            },
            CreateFile::Creating => finish_done(reply),
        }
    }
}

/// Moving a file: first it is asked whether something stands at each end.
pub enum Rename<S = String> {
    ProbingFrom { from: S, to: S },
    ProbingTo { from: S, to: S },
    Moving,
}

impl View for Rename {
    type V = Rename<Seq<char>>;

    open spec fn view(&self) -> Rename<Seq<char>> {
        match self {
            Rename::ProbingFrom { from, to } => Rename::ProbingFrom { from: from@, to: to@ },
            Rename::ProbingTo { from, to } => Rename::ProbingTo { from: from@, to: to@ },
            Rename::Moving => Rename::Moving,
        }
    }
}

/// How moving a file goes on: nothing that stands at the new path is replaced.
pub open spec fn rename_next(
    state: Rename<Seq<char>>,
    reply: ReplyView,
) -> StepView<Rename<Seq<char>>, ()> {
    match state {
        Rename::ProbingFrom { from, to } => match reply {
            Reply::Attrs(_) => Step::Ask {
                request: Request::Lstat(to),
                state: Rename::ProbingTo { from, to },
            },
            Reply::Failed(_) | Reply::Broken(_) => Step::Finish(Err(not_found(from))),
            _ => Step::Finish(Err(unexpected())),
        },
        Rename::ProbingTo { from, to } => match reply {
            Reply::Attrs(_) => Step::Finish(Err(already_exists(to))),
            Reply::Failed(_) | Reply::Broken(_) => Step::Ask {
                request: Request::Rename { from, to },
                state: Rename::Moving,
            },
            _ => Step::Finish(Err(unexpected())),
        },
        Rename::Moving => done_or_error(reply),
    }
}

/// The start of moving a file.
pub open spec fn rename_start(from: Seq<char>, to: Seq<char>) -> StepView<Rename<Seq<char>>, ()> {
    Step::Ask { request: Request::Lstat(from), state: Rename::ProbingFrom { from, to } }
}

/// Starts to move a file.
pub fn rename(from: &str, to: &str) -> (r: Step<Rename, ()>)
    ensures
        r@ == rename_start(from@, to@),
{
    Step::Ask {
        request: Request::Lstat(from.to_owned()),
        state: Rename::ProbingFrom { from: from.to_owned(), to: to.to_owned() },
    }
}

impl Rename {
    /// Goes on moving a file.
    pub fn resume(self, reply: Reply) -> (r: Step<Rename, ()>)
        ensures
            r@ == rename_next(self@, reply@),
    {
        match self {
            Rename::ProbingFrom { from, to } => match reply {
                Reply::Attrs(_) => Step::Ask {
                    request: Request::Lstat(to.clone()),
                    state: Rename::ProbingTo { from, to },
                },
                Reply::Failed(_) | Reply::Broken(_) => Step::Finish(
                    Err("not found: ".to_owned().concat(from.as_str())),
                ),
                _ => Step::Finish(Err(unexpected_reply())),
            },
            Rename::ProbingTo { from, to } => match reply {
                Reply::Attrs(_) => Step::Finish(Err(already_exists_text(to.as_str()))),
                Reply::Failed(_) | Reply::Broken(_) => Step::Ask {
                    request: Request::Rename { from, to },
                    state: Rename::Moving,
                },
                _ => Step::Finish(Err(unexpected_reply())),
            },
            Rename::Moving => finish_done(reply),
        }
    }
}

/// Whether a reply says that nothing can be found.
pub open spec fn nothing_there(reply: ReplyView) -> bool {
    reply is Failed || reply is Broken
}

/// A file over the limit is not read, whatever else the host replies.
pub proof fn large_files_are_not_read(path: Seq<char>, replies: Seq<ReplyView>, i: int)
    requires
        ({
            let requests = asked(
                |s: ReadFile<Seq<char>>, r: ReplyView| read_file_next(s, r),
                read_file_start(path),
                replies,
            );
            0 <= i < requests.len() && requests[i] is Read
        }),
    ensures
        i == 1,
        replies[0] matches Reply::Attrs(a) && size_of(a) <= MAX_READ_BYTES,
{
    let next = |s: ReadFile<Seq<char>>, r: ReplyView| read_file_next(s, r);
    let start = read_file_start(path);
    lemma_asked_len(next, start, replies);
    lemma_asked_at(next, start, replies, i);
    reveal_with_fuel(after, 2);
    if i > 0 {
        lemma_after_step(next, start, replies, 0);
        assert(replies.take(0).len() == 0);
        assert(replies.take(1)[0] == replies[0]);
        if i > 1 {
            lemma_after_step(next, start, replies, 1);
            lemma_stays_over(next, start, replies, 2, i);
        }
    }
}

/// Creating a file touches nothing that stands at its path: the file is made
/// only where the host found nothing there.
pub proof fn existing_files_are_kept(path: Seq<char>, replies: Seq<ReplyView>, i: int)
    requires
        ({
            let requests = asked(
                |s: CreateFile<Seq<char>>, r: ReplyView| create_file_next(s, r),
                create_file_start(path),
                replies,
            );
            0 <= i < requests.len() && requests[i] is Create
        }),
    ensures
        i == 1,
        nothing_there(replies[0]),
{
    let next = |s: CreateFile<Seq<char>>, r: ReplyView| create_file_next(s, r);
    let start = create_file_start(path);
    lemma_asked_len(next, start, replies);
    lemma_asked_at(next, start, replies, i);
    reveal_with_fuel(after, 2);
    if i > 0 {
        lemma_after_step(next, start, replies, 0);
        assert(replies.take(0).len() == 0);
        if i > 1 {
            lemma_after_step(next, start, replies, 1);
            lemma_stays_over(next, start, replies, 2, i);
        }
    }
}

/// Moving a file replaces nothing: it is moved only where the host found
/// something at the old path and nothing at the new one.
pub proof fn renames_replace_nothing(
    from: Seq<char>,
    to: Seq<char>,
    replies: Seq<ReplyView>,
    i: int,
)
    requires
        ({
            let requests = asked(
                |s: Rename<Seq<char>>, r: ReplyView| rename_next(s, r),
                rename_start(from, to),
                replies,
            );
            0 <= i < requests.len() && requests[i] is Rename
        }),
    ensures
        i == 2,
        replies[0] is Attrs,
        nothing_there(replies[1]),
{
    let next = |s: Rename<Seq<char>>, r: ReplyView| rename_next(s, r);
    let start = rename_start(from, to);
    lemma_asked_len(next, start, replies);
    lemma_asked_at(next, start, replies, i);
    reveal_with_fuel(after, 2);
    assert(replies.take(0).len() == 0);
    if i > 0 {
        lemma_after_step(next, start, replies, 0);
        if i > 1 {
            lemma_after_step(next, start, replies, 1);
            if i > 2 {
                lemma_after_step(next, start, replies, 2);
                lemma_stays_over(next, start, replies, 3, i);
            } else if after(next, start, replies.take(1)) is Finish {
                lemma_stays_over(next, start, replies, 1, i);
            }
        }
    }
}

/// A file is read as text exactly where its bytes are valid UTF-8 and none of
/// the first 8192 is zero; the text is what the bytes say, with the size that
/// the host told. Any other file of up to ten megabytes is binary.
pub proof fn text_holds_no_zero_byte(path: Seq<char>, a: Attrs, bytes: Seq<u8>, size: u64)
    requires
        a.size == Some(size) || a.size is None && size == 0,
        size <= 10 * 1024 * 1024,
    ensures
        ({
            let next = |s: ReadFile<Seq<char>>, r: ReplyView| read_file_next(s, r);
            let start = read_file_start(path);
            let replies = seq![ReplyView::Attrs(a), ReplyView::Bytes(bytes)];
            let end = after(next, start, replies);
            let zero = exists|i: int| 0 <= i < bytes.len() && i < 8192 && #[trigger] bytes[i] == 0;
            &&& asked(next, start, replies) == seq![
                Request::Stat(path),
                Request::Read(path),
            ]
            &&& valid_utf8(bytes) && !zero ==> end
                == StepView::<ReadFile<Seq<char>>, ReadResult<Seq<char>>>::Finish(
                Ok(ReadResult::Text { content: decode_utf8(bytes), size }),
            )
            &&& !valid_utf8(bytes) || zero ==> end
                == StepView::<ReadFile<Seq<char>>, ReadResult<Seq<char>>>::Finish(
                Ok(ReadResult::Binary { size }),
            )
        }),
{
    reveal_with_fuel(after, 3);
    reveal_with_fuel(asked, 3);
    let replies = seq![ReplyView::Attrs(a), ReplyView::Bytes(bytes)];
    assert(replies.drop_first()[0] == replies[1]);
    assert(seq![Request::Stat(path)] + (seq![Request::Read(path)] + Seq::empty()) =~= seq![
        Request::Stat(path),
        Request::Read(path),
    ]);
}

/// A file of more than ten megabytes is not read; what is told of it is its size
/// and that limit. What the host says against a request is what is said of the
/// file.
pub proof fn large_files_are_told_of(path: Seq<char>, a: Attrs, n: u64, e: Seq<char>)
    requires
        a.size == Some(n),
        n > 10 * 1024 * 1024,
    ensures
        read_file_next(ReadFile::Sizing { path }, ReplyView::Attrs(a)) == StepView::<
            ReadFile<Seq<char>>,
            ReadResult<Seq<char>>,
        >::Finish(Ok(ReadResult::TooLarge { size: n, limit: 10_485_760 })),
        forall|s: ReadFile<Seq<char>>|
            #![trigger read_file_next(s, ReplyView::Failed(e))]
            #![trigger read_file_next(s, ReplyView::Broken(e))]
            read_file_next(s, ReplyView::Failed(e)) == StepView::<
                ReadFile<Seq<char>>,
                ReadResult<Seq<char>>,
            >::Finish(Err(e)) && read_file_next(s, ReplyView::Broken(e)) == StepView::<
                ReadFile<Seq<char>>,
                ReadResult<Seq<char>>,
            >::Finish(Err(e)),
{
}

/// Writing asks the host to write just that text to just that file. It succeeds
/// where that was done, and else fails with what the host says.
pub proof fn texts_are_written_as_they_are(path: Seq<char>, content: Seq<char>, e: Seq<char>)
    ensures
        write_file_start(path, content) matches Step::Ask { request, state } && request == (
        Request::Write { path, content }),
        done_or_error::<WriteFile>(ReplyView::Done) == StepView::<WriteFile, ()>::Finish(Ok(())),
        done_or_error::<WriteFile>(ReplyView::Failed(e)) == StepView::<WriteFile, ()>::Finish(Err(e)),
        done_or_error::<WriteFile>(ReplyView::Broken(e)) == StepView::<WriteFile, ()>::Finish(Err(e)),
{
}

/// What is told of a file is what the host says of it, and not of what a link
/// leads to: its size, its time in
/// milliseconds as far as 64 bits hold those, and what it is, where a link is a
/// link before it is anything else.
pub proof fn stat_tells_what_the_host_says(path: Seq<char>, a: Attrs, e: Seq<char>)
    ensures
        stat_start(path) matches Step::Ask { request, state } && request == Request::Lstat(path),
        stat_next(ReplyView::Attrs(a)) matches Step::Finish(Ok(f)) && {
            &&& a.size matches Some(n) ==> f.size == n
            &&& a.size is None ==> f.size == 0
            &&& a.mtime is None ==> f.mtime == 0
            &&& a.mtime matches Some(t) ==> {
                &&& t <= 18_446_744_073_709_551 ==> f.mtime == 1000 * t
                &&& t > 18_446_744_073_709_551 ==> f.mtime == 18_446_744_073_709_551_615
            }
            &&& f.kind is Symlink <==> a.is_symlink
            &&& f.kind is Dir <==> a.is_dir && !a.is_symlink
            &&& f.kind is File <==> !a.is_dir && !a.is_symlink
        },
        stat_next(ReplyView::Failed(e)) == StepView::<StatFile, FileStat>::Finish(Err(e)),
        stat_next(ReplyView::Broken(e)) == StepView::<StatFile, FileStat>::Finish(Err(e)),
{
}

/// A path is resolved to what the host says, with separators for backslashes.
pub proof fn the_host_resolves_paths(path: Seq<char>, p: Seq<char>, e: Seq<char>)
    ensures
        canonicalize_start(path) matches Step::Ask { request, state } && request
            == Request::Realpath(path),
        canonicalize_next(ReplyView::Path(p)) matches Step::Finish(Ok(q)) && {
            &&& q.len() == p.len()
            &&& forall|i: int| 0 <= i < p.len() && p[i] != '\\' ==> #[trigger] q[i] == p[i]
            &&& forall|i: int| 0 <= i < p.len() && p[i] == '\\' ==> #[trigger] q[i] == '/'
        },
        canonicalize_next(ReplyView::Failed(e)) == StepView::<Canonicalize, Seq<char>>::Finish(
            Err(e),
        ),
        canonicalize_next(ReplyView::Broken(e)) == StepView::<Canonicalize, Seq<char>>::Finish(
            Err(e),
        ),
{
}

/// A file is created where the host finds nothing at its path, whatever it says
/// of that, and how that ends is how creating ends. Where something stands
/// there, that is the complaint, and nothing more is asked for.
pub proof fn files_are_created_where_nothing_stands(
    path: Seq<char>,
    missing: ReplyView,
    a: Attrs,
    e: Seq<char>,
)
    requires
        missing is Failed || missing is Broken,
    ensures
        ({
            let next = |s: CreateFile<Seq<char>>, r: ReplyView| create_file_next(s, r);
            let start = create_file_start(path);
            &&& asked(next, start, seq![missing, ReplyView::Done]) == seq![
                Request::Stat(path),
                Request::Create(path),
            ]
            &&& after(next, start, seq![missing, ReplyView::Done]) == StepView::<
                CreateFile<Seq<char>>,
                (),
            >::Finish(Ok(()))
            &&& after(next, start, seq![missing, ReplyView::Failed(e)]) == StepView::<
                CreateFile<Seq<char>>,
                (),
            >::Finish(Err(e))
            &&& after(next, start, seq![ReplyView::Attrs(a)]) == StepView::<
                CreateFile<Seq<char>>,
                (),
            >::Finish(Err("already exists: "@ + path))
        }),
{
    reveal_with_fuel(after, 3);
    reveal_with_fuel(asked, 3);
    let done = seq![missing, ReplyView::Done];
    let failed = seq![missing, ReplyView::Failed(e)];
    assert(done.drop_first()[0] == ReplyView::Done);
    assert(failed.drop_first()[0] == ReplyView::Failed(e));
    assert(seq![Request::Stat(path)] + (seq![Request::Create(path)] + Seq::empty()) =~= seq![
        Request::Stat(path),
        Request::Create(path),
    ]);
}

/// A file is moved from the one path to the other where the host finds something
/// at the first and nothing at the second. Where nothing stands at the first or
/// something at the second, that is the complaint.
pub proof fn files_are_moved_as_asked(
    from: Seq<char>,
    to: Seq<char>,
    missing: ReplyView,
    a: Attrs,
    b: Attrs,
    e: Seq<char>,
)
    requires
        missing is Failed || missing is Broken,
    ensures
        ({
            let next = |s: Rename<Seq<char>>, r: ReplyView| rename_next(s, r);
            let start = rename_start(from, to);
            let found = ReplyView::Attrs(a);
            &&& asked(next, start, seq![found, missing, ReplyView::Done]) == seq![
                Request::Lstat(from),
                Request::Lstat(to),
                Request::Rename { from, to },
            ]
            &&& after(next, start, seq![found, missing, ReplyView::Done]) == StepView::<
                Rename<Seq<char>>,
                (),
            >::Finish(Ok(()))
            &&& after(next, start, seq![found, missing, ReplyView::Failed(e)]) == StepView::<
                Rename<Seq<char>>,
                (),
            >::Finish(Err(e))
            &&& after(next, start, seq![missing]) == StepView::<Rename<Seq<char>>, ()>::Finish(
                Err("not found: "@ + from),
            )
            &&& after(next, start, seq![found, ReplyView::Attrs(b)]) == StepView::<
                Rename<Seq<char>>,
                (),
            >::Finish(Err("already exists: "@ + to))
        }),
{
    let next = |s: Rename<Seq<char>>, r: ReplyView| rename_next(s, r);
    let start = rename_start(from, to);
    let found = ReplyView::Attrs(a);
    let done = ReplyView::Done;
    let failed = ReplyView::Failed(e);
    let taken = ReplyView::Attrs(b);
    let none = Seq::<ReplyView>::empty();
    let s1 = rename_next(start->state, found);
    let s2 = rename_next(s1->state, missing);
    lemma_first_reply(next, start, found, seq![missing] + (seq![done] + none));
    lemma_first_reply(next, s1, missing, seq![done] + none);
    lemma_first_reply(next, s2, done, none);
    assert(seq![found, missing, done] =~= seq![found] + (seq![missing] + (seq![done] + none)));
    lemma_first_reply(next, start, found, seq![missing] + (seq![failed] + none));
    lemma_first_reply(next, s1, missing, seq![failed] + none);
    lemma_first_reply(next, s2, failed, none);
    assert(seq![found, missing, failed] =~= seq![found] + (seq![missing] + (seq![failed] + none)));
    lemma_first_reply(next, start, missing, none);
    assert(seq![missing] =~= seq![missing] + none);
    lemma_first_reply(next, start, found, seq![taken] + none);
    lemma_first_reply(next, s1, taken, none);
    assert(seq![found, taken] =~= seq![found] + (seq![taken] + none));
    assert(asked(next, start, seq![found, missing, done]) =~= seq![
        Request::Lstat(from),
        Request::Lstat(to),
        Request::Rename { from, to },
    ]);
}

} // verus!
