use crate::bytes::{
    be8, be_word, lemma_be8_between, lemma_be8_word, patched, push_word, read_word, write_at,
};
use crate::json::{int_text, join, lemma_join_push, write_u128};
use crate::text::{chars_of, string_from_utf8, string_of};
use vstd::prelude::*;
use vstd::string::StringExecFns;
use vstd::utf8::{decode_utf8, encode_utf8, encode_utf8_decode_utf8, encode_utf8_valid_utf8, valid_utf8};

verus! {

broadcast use vstd::string::group_string_axioms;

/// The ending of the files of a tree.
pub const FILE_ENDING: &'static str = ".mbpt";

/// The ending of the values file of a tree.
pub const VALUES_FILE_ENDING: &'static str = ".value";

/// The ending of the nodes file of a tree.
pub const NODES_FILE_ENDING: &'static str = ".nodes";

/// The directory ending of backups.
pub const RESTORER_DIR: &'static str = "backup";

/// How many operations a backup may fall behind before it is to be updated.
pub const RESTORER_RECOMMENDED_DIFF: usize = 30;

/// How often an operation is tried again before it goes to the fail log.
pub const MAX_TRY_COUNTER: usize = 5;

/// The ending of a backup's settings file.
pub const RESTORER_SETTINGS_FILE_ENDING: &'static str = ".restorer.config";

/// The name of the loggers' settings file, after the store's name and a dot.
pub const LOGGER_CONFIG_FILENAME: &'static str = "logger.config";

/// The ending of a store's operation log.
pub const OPERATION_LOGGER_FILE_ENDING: &'static str = ".oplogger";

/// The file of operations that failed too often.
pub const FAIL_LOG_PATH: &'static str = "fail log.flog";

/// What can go wrong in logging.
#[derive(Debug, PartialEq, Eq, PartialOrd, Ord, Structural)]
pub enum LoggerError {
    InvalidOperationCode(u8),
    InvalidLogLocation(usize),
    CantReadId,
    CantReadCompleted,
    CantReadTryCounter,
    CantReadOpType,
    CantReadParam,
    CantWriteId,
    CantWriteCompleted,
    CantWriteTryCounter,
    CantWriteOpType,
    CantWriteParam,
    CantMarkLogAsComplete,
    CantFindLog(usize),
    CantAddOperationToFailLog,
    CantIncrementTryCounter,
    CantRestoreFilesFromBackup,
    CanWriteToOutput,
    CantCreateBackupDir,
    CantLoadLastId,
    CantLoadLastOpStart,
    CantLoadBackupFiles,
    CantUpdateLog,
    CantWriteToConfigFile,
    CantReadFromConfigFile,
}

/// The kinds of messages.
#[derive(Debug, PartialEq, Eq, Clone, Copy, Structural)]
pub enum LogType {
    Info,
    Warning,
    Error,
}

/// An operation on the store, with its key and, for writes, its value.
#[derive(Debug, PartialEq, Eq, PartialOrd, Ord, Clone)]
pub enum OperationType {
    Insert(String, Vec<u8>),
    Select(String),
    Delete(String),
    Update(String, Vec<u8>),
}

/// The code an operation is written with.
pub open spec fn op_code(op: OperationType) -> u8 {
    match op {
        OperationType::Insert(_, _) => 1,
        OperationType::Select(_) => 2,
        OperationType::Delete(_) => 3,
        OperationType::Update(_, _) => 4,
    }
}

impl OperationType {
    /// The code the operation is written with.
    pub fn to_u8(&self) -> (b: u8)
        ensures
            b == op_code(*self),
    {
        match self {
            OperationType::Insert(_, _) => 0x01,
            OperationType::Select(_) => 0x02,
            OperationType::Delete(_) => 0x03,
            OperationType::Update(_, _) => 0x4,
        }
    }
}

/// A logged operation: whether it completed, its number, where its record starts, how
/// often it was tried, and the operation.
#[derive(Debug)]
pub struct OperationLog {
    pub completed: bool,
    pub id: usize,
    pub start_location: usize,
    pub try_counter: usize,
    pub op_type: OperationType,
}

/// The name a kind of message is written with.
pub open spec fn log_type_name(t: LogType) -> Seq<char> {
    match t {
        LogType::Info => "Info"@,
        LogType::Warning => "Warning"@,
        LogType::Error => "Error"@,
    }
}

/// The line a message is written as: its number, the kind, the message and a full stop.
pub open spec fn log_line(id: int, t: LogType, message: Seq<char>) -> Seq<char> {
    int_text(id) + "| "@ + log_type_name(t) + ": "@ + message + ".\n"@
}

/// The line a message is written as.
pub fn format_line(id: usize, log_type: LogType, message: &String) -> (s: String)
    ensures
        s@ == log_line(id as int, log_type, message@),
{
    let digits = write_u128(id as u128);
    let mut s = string_of(digits.as_slice());
    s.append("| ");
    match log_type {
        LogType::Info => s.append("Info"),
        LogType::Warning => s.append("Warning"),
        LogType::Error => s.append("Error"),
    }
    s.append(": ");
    s.append(message.as_str());
    s.append(".\n");
    s
}

#[verifier::external_type_specification]
#[verifier::external_body]
pub struct ExStdout(std::io::Stdout);

/// `std::io::stdout()`: the standard output.
#[verifier::external_body]
fn standard_output() -> std::io::Stdout {
    std::io::stdout()
}

/// `Write::write_all`: writes all the bytes to an output; whether it did depends on the
/// output, and nothing is stated of it.
#[verifier::external_body]
fn write_all_to<T: std::io::Write>(output: &mut T, bytes: &[u8]) -> bool {
    output.write_all(bytes).is_ok()
}

/// A logger of numbered messages to an output (the standard output when it has none).
pub struct GeneralLogger<T> {
    output: Option<T>,
    id: usize,
    sent: Ghost<Seq<Seq<u8>>>,
}

impl<T> GeneralLogger<T> {
    /// The number the next message gets.
    pub closed spec fn next_id(&self) -> usize {
        self.id
    }

    /// Whether the logger writes to an output of its own.
    pub closed spec fn has_output(&self) -> bool {
        self.output is Some
    }

    /// The byte strings handed to the output so far, one per message, in order.
    pub closed spec fn sent(&self) -> Seq<Seq<u8>> {
        self.sent@
    }

    /// The byte string a message is handed to the output as: its line in UTF-8.
    pub open spec fn line_bytes(id: int, t: LogType, message: Seq<char>) -> Seq<u8> {
        encode_utf8(log_line(id, t, message))
    }
}

impl<T: std::io::Write> GeneralLogger<T> {
    /// A logger to an output, numbering messages from `id`.
    pub fn new(output: T, id: usize) -> (r: GeneralLogger<T>)
        ensures
            r.next_id() == id,
            r.has_output(),
            r.sent() == Seq::<Seq<u8>>::empty(),
    {
        GeneralLogger { output: Some(output), id, sent: Ghost(Seq::empty()) }
    }

    /// A logger to the standard output, numbering messages from 1.
    pub fn to_stdout() -> (r: GeneralLogger<T>)
        ensures
            r.next_id() == 1,
            !r.has_output(),
            r.sent() == Seq::<Seq<u8>>::empty(),
    {
        GeneralLogger { output: None, id: 1, sent: Ghost(Seq::empty()) }
    }

    /// Writes a message as its line (see [`format_line`]): the line's bytes are handed to
    /// the output (the standard output when the logger has none); the number goes up by
    /// one once the line is written, and an error is returned when it could not be.
    pub fn log(&mut self, log_type: LogType, message: String) -> (r: Result<(), LoggerError>)
        requires
            old(self).next_id() < usize::MAX,
        ensures
            final(self).has_output() == old(self).has_output(),
            final(self).sent() == old(self).sent().push(
                Self::line_bytes(old(self).next_id() as int, log_type, message@),
            ),
            r is Ok ==> final(self).next_id() == old(self).next_id() + 1,
            r is Err ==> r == Err::<(), LoggerError>(LoggerError::CanWriteToOutput) && final(self).next_id() == old(self).next_id(),
    {
        let line = format_line(self.id, log_type, &message);
        let bytes = line.as_str().as_bytes();
        let ok = match &mut self.output {
            Some(output) => write_all_to(output, bytes),
            None => {
                let mut out = standard_output();
                write_all_to(&mut out, bytes)
            },
        };
        proof {
            self.sent@ = self.sent@.push(bytes@);
        }
        if !ok {
            return Err(LoggerError::CanWriteToOutput);
        }
        self.id += 1;
        Ok(())
    }

    /// The number the next message gets.
    pub fn get_id(&self) -> (id: usize)
        ensures
            id == self.next_id(),
    {
        self.id
    }

    /// Writes an information message.
    pub fn info(&mut self, message: String) -> (r: Result<(), LoggerError>)
        requires
            old(self).next_id() < usize::MAX,
        ensures
            final(self).has_output() == old(self).has_output(),
            final(self).sent() == old(self).sent().push(
                Self::line_bytes(old(self).next_id() as int, LogType::Info, message@),
            ),
            r is Ok ==> final(self).next_id() == old(self).next_id() + 1,
            r is Err ==> r == Err::<(), LoggerError>(LoggerError::CanWriteToOutput) && final(self).next_id() == old(self).next_id(),
    {
        self.log(LogType::Info, message)
    }

    /// Writes a warning.
    pub fn warning(&mut self, message: String) -> (r: Result<(), LoggerError>)
        requires
            old(self).next_id() < usize::MAX,
        ensures
            final(self).has_output() == old(self).has_output(),
            final(self).sent() == old(self).sent().push(
                Self::line_bytes(old(self).next_id() as int, LogType::Warning, message@),
            ),
            r is Ok ==> final(self).next_id() == old(self).next_id() + 1,
            r is Err ==> r == Err::<(), LoggerError>(LoggerError::CanWriteToOutput) && final(self).next_id() == old(self).next_id(),
    {
        self.log(LogType::Warning, message)
    }

    /// Writes an error message.
    pub fn error(&mut self, message: String) -> (r: Result<(), LoggerError>)
        requires
            old(self).next_id() < usize::MAX,
        ensures
            final(self).has_output() == old(self).has_output(),
            final(self).sent() == old(self).sent().push(
                Self::line_bytes(old(self).next_id() as int, LogType::Error, message@),
            ),
            r is Ok ==> final(self).next_id() == old(self).next_id() + 1,
            r is Err ==> r == Err::<(), LoggerError>(LoggerError::CanWriteToOutput) && final(self).next_id() == old(self).next_id(),
    {
        self.log(LogType::Error, message)
    }
}

/// What a backup knows: the store's name, and the number and record start of the last
/// operation it holds.
pub struct Restorer {
    pub name: String,
    pub last_op_id: usize,
    pub last_op_start: usize,
}

/// The directory of a store's backup.
pub open spec fn restorer_path(name: Seq<char>) -> Seq<char> {
    name + "_"@ + "backup"@
}

/// The files a restore copies, each from the store's file to the file of the same name in
/// the backup directory: the values file, then the nodes file.
pub open spec fn restore_copies(name: Seq<char>) -> Seq<(Seq<char>, Seq<char>)> {
    seq![
        (name + ".value"@ + ".mbpt"@, restorer_path(name) + "\\"@ + name + ".value"@ + ".mbpt"@),
        (name + ".nodes"@ + ".mbpt"@, restorer_path(name) + "\\"@ + name + ".nodes"@ + ".mbpt"@),
    ]
}

impl Restorer {
    /// A backup record.
    pub fn from_parts(name: String, last_op_id: usize, last_op_start: usize) -> (r: Restorer)
        ensures
            r.name@ == name@,
            r.last_op_id == last_op_id,
            r.last_op_start == last_op_start,
    {
        Restorer { name, last_op_id, last_op_start }
    }

    /// Whether the backup has fallen far enough behind the operations to be updated.
    pub fn should_update(&self, current_op_max_id: usize) -> (b: bool)
        requires
            self.last_op_id + RESTORER_RECOMMENDED_DIFF <= usize::MAX,
        ensures
            b == (self.last_op_id + RESTORER_RECOMMENDED_DIFF <= current_op_max_id),
    {
        self.last_op_id + RESTORER_RECOMMENDED_DIFF <= current_op_max_id
    }

    /// The number of the last operation the backup holds.
    pub fn get_last_backed_operation_id(&self) -> (id: usize)
        ensures
            id == self.last_op_id,
    {
        self.last_op_id
    }

    /// Where the record of the last operation the backup holds starts.
    pub fn get_last_backed_operation_start(&self) -> (start: usize)
        ensures
            start == self.last_op_start,
    {
        self.last_op_start
    }

    /// The copies that restore the store's files from the backup, as (from, to) pairs.
    pub fn restore(&self) -> (r: Vec<(String, String)>)
        ensures
            r@.map_values(|p: (String, String)| (p.0@, p.1@)) == restore_copies(self.name@),
    {
        let mut dir = self.name.clone();
        dir.append("_");
        dir.append("backup");
        let mut values_from = self.name.clone();
        values_from.append(".value");
        values_from.append(".mbpt");
        let mut values_to = dir.clone();
        values_to.append("\\");
        values_to.append(values_from.as_str());
        let mut nodes_from = self.name.clone();
        nodes_from.append(".nodes");
        nodes_from.append(".mbpt");
        let mut nodes_to = dir.clone();
        nodes_to.append("\\");
        nodes_to.append(nodes_from.as_str());
        assert(dir@ =~= restorer_path(self.name@));
        assert(values_from@ =~= self.name@ + ".value"@ + ".mbpt"@);
        assert(values_to@ =~= restorer_path(self.name@) + "\\"@ + self.name@ + ".value"@ + ".mbpt"@);
        assert(nodes_from@ =~= self.name@ + ".nodes"@ + ".mbpt"@);
        assert(nodes_to@ =~= restorer_path(self.name@) + "\\"@ + self.name@ + ".nodes"@ + ".mbpt"@);
        let mut r: Vec<(String, String)> = Vec::new();
        r.push((values_from, values_to));
        r.push((nodes_from, nodes_to));
        assert(r@.map_values(|p: (String, String)| (p.0@, p.1@)) =~= restore_copies(self.name@));
        r
    }
}


// ------------------------------------------------------------------------------------------
// Operation records.
// ------------------------------------------------------------------------------------------

/// An operation as values.
pub enum OperationView {
    Insert(Seq<char>, Seq<u8>),
    Select(Seq<char>),
    Delete(Seq<char>),
    Update(Seq<char>, Seq<u8>),
}

/// The values of an operation.
pub open spec fn op_view(op: OperationType) -> OperationView {
    match op {
        OperationType::Insert(k, v) => OperationView::Insert(k@, v@),
        OperationType::Select(k) => OperationView::Select(k@),
        OperationType::Delete(k) => OperationView::Delete(k@),
        OperationType::Update(k, v) => OperationView::Update(k@, v@),
    }
}

/// A length-prefixed run of bytes: its length as a big-endian word, then the bytes.
pub open spec fn sized(b: Seq<u8>) -> Seq<u8> {
    be8(b.len() as u64) + b
}

/// The bytes of an operation: its code, then its key's bytes and, for writes, the value,
/// each length-prefixed.
pub open spec fn op_bytes(op: OperationType) -> Seq<u8> {
    seq![op_code(op)] + match op {
        OperationType::Insert(k, v) => sized(encode_utf8(k@)) + sized(v@),
        OperationType::Select(k) => sized(encode_utf8(k@)),
        OperationType::Delete(k) => sized(encode_utf8(k@)),
        OperationType::Update(k, v) => sized(encode_utf8(k@)) + sized(v@),
    }
}

/// The record of a logged operation: its number, whether it completed, how often it was
/// tried, then the operation.
pub open spec fn log_bytes(log: OperationLog) -> Seq<u8> {
    be8(log.id as u64) + seq![
        if log.completed {
            1u8
        } else {
            0u8
        },
    ] + be8(log.try_counter as u64) + op_bytes(log.op_type)
}

/// A logged operation as values: completed, number, where its record starts, tries, the
/// operation.
pub struct LogView {
    pub completed: bool,
    pub id: usize,
    pub start_location: usize,
    pub try_counter: usize,
    pub op: OperationView,
}

/// The values of a logged operation.
pub open spec fn log_view(l: OperationLog) -> LogView {
    LogView {
        completed: l.completed,
        id: l.id,
        start_location: l.start_location,
        try_counter: l.try_counter,
        op: op_view(l.op_type),
    }
}

/// The length-prefixed bytes at `i`, and where they end; a parameter error where the bytes
/// end first.
#[verifier::opaque]
pub open spec fn read_sized(b: Seq<u8>, i: int) -> Result<(Seq<u8>, int), LoggerError> {
    if i + 8 > b.len() {
        Err(LoggerError::CantReadParam)
    } else if be_word(b, i) as int > b.len() - (i + 8) {
        Err(LoggerError::CantReadParam)
    } else {
        Ok((b.subrange(i + 8, i + 8 + be_word(b, i) as int), i + 8 + be_word(b, i) as int))
    }
}

/// The length-prefixed text at `i`, and where it ends; a parameter error where it is not
/// UTF-8.
#[verifier::opaque]
pub open spec fn read_sized_text(b: Seq<u8>, i: int) -> Result<(Seq<char>, int), LoggerError> {
    match read_sized(b, i) {
        Err(e) => Err(e),
        Ok((t, e)) => if valid_utf8(t) {
            Ok((decode_utf8(t), e))
        } else {
            Err(LoggerError::CantReadParam)
        },
    }
}

/// How the bytes of an operation from `i` on read.
#[verifier::opaque]
pub open spec fn read_op(b: Seq<u8>, i: int) -> Result<OperationView, LoggerError> {
    let code = b[i];
    if code == 1 || code == 4 {
        match read_sized_text(b, i + 1) {
            Err(e) => Err(e),
            Ok((k, e1)) => match read_sized(b, e1) {
                Err(e) => Err(e),
                Ok((v, _)) => Ok(
                    if code == 1 {
                        OperationView::Insert(k, v)
                    } else {
                        OperationView::Update(k, v)
                    },
                ),
            },
        }
    } else if code == 2 || code == 3 {
        match read_sized_text(b, i + 1) {
            Err(e) => Err(e),
            Ok((k, _)) => Ok(
                if code == 2 {
                    OperationView::Select(k)
                } else {
                    OperationView::Delete(k)
                },
            ),
        }
    } else {
        Err(LoggerError::InvalidOperationCode(code))
    }
}

/// How the bytes of a logged operation read, for a record that starts at `start`: each
/// part missing is an error of its own, as is a completion byte other than 0 or 1.
pub open spec fn read_log_spec(start: usize, b: Seq<u8>) -> Result<LogView, LoggerError> {
    if b.len() < 8 {
        Err(LoggerError::CantReadId)
    } else if b.len() < 9 || (b[8] != 0 && b[8] != 1) {
        Err(LoggerError::CantReadCompleted)
    } else if b.len() < 17 {
        Err(LoggerError::CantReadTryCounter)
    } else if b.len() < 18 {
        Err(LoggerError::CantReadOpType)
    } else {
        match read_op(b, 17) {
            Err(e) => Err(e),
            Ok(op) => Ok(
                LogView {
                    completed: b[8] == 1,
                    id: be_word(b, 0) as usize,
                    start_location: start,
                    try_counter: be_word(b, 9) as usize,
                    op: op,
                },
            ),
        }
    }
}

/// The size of an operation's record.
pub open spec fn op_log_size(op: OperationType) -> int {
    18int + match op {
        OperationType::Insert(k, v) => encode_utf8(k@).len() as int + v@.len() as int + 16,
        OperationType::Select(k) => encode_utf8(k@).len() as int + 8,
        OperationType::Delete(k) => encode_utf8(k@).len() as int + 8,
        OperationType::Update(k, v) => encode_utf8(k@).len() as int + v@.len() as int + 16,
    }
}

/// Appends a length-prefixed run of bytes.
fn push_sized(out: &mut Vec<u8>, b: &[u8])
    ensures
        final(out)@ == old(out)@ + sized(b@),
{
    push_word(out, b.len() as u64);
    let ghost head = out@;
    let mut i: usize = 0;
    while i < b.len()
        invariant
            i <= b.len(),
            out@ == head + b@.take(i as int),
        decreases b.len() - i,
    {
        out.push(b[i]);
        assert(b@.take(i + 1) == b@.take(i as int).push(b@[i as int]));
        i += 1;
    }
    assert(b@.take(b.len() as int) == b@);
    assert(out@ =~= old(out)@ + sized(b@));
}

/// The size of an operation's record.
pub fn calc_op_log_size(log: &OperationType) -> (n: usize)
    requires
        op_log_size(*log) <= usize::MAX,
    ensures
        n == op_log_size(*log),
{
    18 + match log {
        OperationType::Insert(k, v) => k.as_str().as_bytes().len() + v.len() + 16,
        OperationType::Select(k) => k.as_str().as_bytes().len() + 8,
        OperationType::Delete(k) => k.as_str().as_bytes().len() + 8,
        OperationType::Update(k, v) => k.as_str().as_bytes().len() + v.len() + 16,
    }
}

/// The record of a logged operation.
pub fn write_log(log: &OperationLog) -> (r: Vec<u8>)
    ensures
        r@ == log_bytes(*log),
{
    let mut out: Vec<u8> = Vec::new();
    push_word(&mut out, log.id as u64);
    out.push(if log.completed { 1u8 } else { 0u8 });
    push_word(&mut out, log.try_counter as u64);
    out.push(log.op_type.to_u8());
    match &log.op_type {
        OperationType::Insert(k, v) => {
            push_sized(&mut out, k.as_str().as_bytes());
            push_sized(&mut out, v.as_slice());
        },
        OperationType::Select(k) => push_sized(&mut out, k.as_str().as_bytes()),
        OperationType::Delete(k) => push_sized(&mut out, k.as_str().as_bytes()),
        OperationType::Update(k, v) => {
            push_sized(&mut out, k.as_str().as_bytes());
            push_sized(&mut out, v.as_slice());
        },
    }
    assert(out@ =~= log_bytes(*log));
    out
}

/// The length-prefixed bytes at `i`, and where they end.
fn read_sized_bytes(b: &[u8], i: usize) -> (r: Result<(Vec<u8>, usize), LoggerError>)
    ensures
        match read_sized(b@, i as int) {
            Ok((t, e)) => r matches Ok((v, e2)) && v@ == t && e2 == e,
            Err(x) => r == Err::<(Vec<u8>, usize), LoggerError>(x),
        },
{
    reveal(read_sized);
    if i > b.len() || b.len() - i < 8 {
        return Err(LoggerError::CantReadParam);
    }
    let n = read_word(b, i);
    if n > (b.len() - (i + 8)) as u64 {
        return Err(LoggerError::CantReadParam);
    }
    let end = i + 8 + n as usize;
    let mut v: Vec<u8> = Vec::new();
    let mut k: usize = i + 8;
    while k < end
        invariant
            i + 8 <= k <= end <= b.len(),
            v@ == b@.subrange(i + 8, k as int),
        decreases end - k,
    {
        v.push(b[k]);
        assert(b@.subrange(i + 8, k + 1) =~= b@.subrange(i + 8, k as int).push(b@[k as int]));
        k += 1;
    }
    Ok((v, end))
}

/// The length-prefixed text at `i`, and where it ends.
fn read_sized_string(b: &[u8], i: usize) -> (r: Result<(String, usize), LoggerError>)
    ensures
        match read_sized_text(b@, i as int) {
            Ok((t, e)) => r matches Ok((s, e2)) && s@ == t && e2 == e,
            Err(x) => r == Err::<(String, usize), LoggerError>(x),
        },
{
    reveal(read_sized_text);
    let (v, end) = read_sized_bytes(b, i)?;
    match string_from_utf8(v) {
        Some(s) => Ok((s, end)),
        None => Err(LoggerError::CantReadParam),
    }
}

/// Reads the record of a logged operation that starts at `start`.
pub fn read_log(start: usize, b: &[u8]) -> (r: Result<OperationLog, LoggerError>)
    ensures
        match read_log_spec(start, b@) {
            Ok(v) => r matches Ok(l) && log_view(l) == v,
            Err(x) => r == Err::<OperationLog, LoggerError>(x),
        },
{
    reveal(read_op);
    if b.len() < 8 {
        return Err(LoggerError::CantReadId);
    }
    let id = read_word(b, 0) as usize;
    if b.len() < 9 || (b[8] != 0 && b[8] != 1) {
        return Err(LoggerError::CantReadCompleted);
    }
    let completed = b[8] == 1;
    if b.len() < 17 {
        return Err(LoggerError::CantReadTryCounter);
    }
    let try_counter = read_word(b, 9) as usize;
    if b.len() < 18 {
        return Err(LoggerError::CantReadOpType);
    }
    let code = b[17];
    let op_type = if code == 1 || code == 4 {
        let (k, e1) = read_sized_string(b, 18)?;
        let (v, _) = read_sized_bytes(b, e1)?;
        if code == 1 {
            OperationType::Insert(k, v)
        } else {
            OperationType::Update(k, v)
        }
    } else if code == 2 || code == 3 {
        let (k, _) = read_sized_string(b, 18)?;
        if code == 2 {
            OperationType::Select(k)
        } else {
            OperationType::Delete(k)
        }
    } else {
        return Err(LoggerError::InvalidOperationCode(code));
    };
    Ok(OperationLog { completed, id, start_location: start, try_counter, op_type })
}

/// Bytes written length-prefixed read back, with the bytes after them left over.
proof fn lemma_sized_reads_back(a: Seq<u8>, t: Seq<u8>, c: Seq<u8>)
    requires
        t.len() <= u64::MAX,
    ensures
        read_sized(a + sized(t) + c, a.len() as int) == Ok::<(Seq<u8>, int), LoggerError>(
            (t, a.len() as int + 8 + t.len() as int),
        ),
{
    reveal(read_sized);
    lemma_be8_word(t.len() as u64);
    lemma_be8_between(a, t.len() as u64, t + c);
    let s = a + sized(t) + c;
    assert(a + be8(t.len() as u64) + (t + c) =~= s);
    assert(s.subrange(a.len() as int + 8, a.len() as int + 8 + t.len() as int) =~= t);
}

/// Whether the lengths in an operation's record fit a word.
pub open spec fn op_fits(op: OperationType) -> bool {
    match op {
        OperationType::Insert(k, v) => encode_utf8(k@).len() <= u64::MAX && v@.len() <= u64::MAX,
        OperationType::Select(k) => encode_utf8(k@).len() <= u64::MAX,
        OperationType::Delete(k) => encode_utf8(k@).len() <= u64::MAX,
        OperationType::Update(k, v) => encode_utf8(k@).len() <= u64::MAX && v@.len() <= u64::MAX,
    }
}

/// A write's code, its key's text and its value, read in turn, make the write.
proof fn lemma_write_parts(b: Seq<u8>, i: int, k: Seq<char>, e1: int, v: Seq<u8>, e2: int)
    requires
        0 <= i < b.len(),
        b[i] == 1 || b[i] == 4,
        read_sized_text(b, i + 1) == Ok::<(Seq<char>, int), LoggerError>((k, e1)),
        read_sized(b, e1) == Ok::<(Seq<u8>, int), LoggerError>((v, e2)),
    ensures
        read_op(b, i) == Ok::<OperationView, LoggerError>(
            if b[i] == 1 {
                OperationView::Insert(k, v)
            } else {
                OperationView::Update(k, v)
            },
        ),
{
    reveal(read_op);
}

/// A key's text written length-prefixed reads back, with the bytes after it left over.
proof fn lemma_sized_text_reads_back(a: Seq<u8>, k: Seq<char>, c: Seq<u8>)
    requires
        encode_utf8(k).len() <= u64::MAX,
    ensures
        read_sized_text(a + sized(encode_utf8(k)) + c, a.len() as int) == Ok::<
            (Seq<char>, int),
            LoggerError,
        >((k, a.len() as int + 8 + encode_utf8(k).len() as int)),
{
    reveal(read_sized_text);
    encode_utf8_valid_utf8(k);
    encode_utf8_decode_utf8(k);
    lemma_sized_reads_back(a, encode_utf8(k), c);
}

/// A key and a value written after a write's code read back.
proof fn lemma_key_value_reads_back(a: Seq<u8>, code: u8, k: Seq<char>, v: Seq<u8>)
    requires
        code == 1 || code == 4,
        encode_utf8(k).len() <= u64::MAX,
        v.len() <= u64::MAX,
    ensures
        read_op(a + seq![code] + sized(encode_utf8(k)) + sized(v), a.len() as int) == Ok::<
            OperationView,
            LoggerError,
        >(
            if code == 1 {
                OperationView::Insert(k, v)
            } else {
                OperationView::Update(k, v)
            },
        ),
{
    let kb = encode_utf8(k);
    let h = a + seq![code];
    let b = h + sized(kb) + sized(v);
    let i = a.len() as int;
    let e1 = i + 1 + 8 + kb.len() as int;
    assert(b[i] == code);
    lemma_sized_text_reads_back(h, k, sized(v));
    lemma_sized_reads_back(h + sized(kb), v, Seq::empty());
    assert(h + sized(kb) + sized(v) + Seq::<u8>::empty() =~= b);
    lemma_write_parts(b, i, k, e1, v, e1 + 8 + v.len() as int);
}

/// A read's or a removal's code and its key's text, read in turn, make the operation.
proof fn lemma_key_parts(b: Seq<u8>, i: int, k: Seq<char>, e1: int)
    requires
        0 <= i < b.len(),
        b[i] == 2 || b[i] == 3,
        read_sized_text(b, i + 1) == Ok::<(Seq<char>, int), LoggerError>((k, e1)),
    ensures
        read_op(b, i) == Ok::<OperationView, LoggerError>(
            if b[i] == 2 {
                OperationView::Select(k)
            } else {
                OperationView::Delete(k)
            },
        ),
{
    reveal(read_op);
}

/// A key written after a read's or a removal's code reads back.
proof fn lemma_key_reads_back(a: Seq<u8>, code: u8, k: Seq<char>)
    requires
        code == 2 || code == 3,
        encode_utf8(k).len() <= u64::MAX,
    ensures
        read_op(a + seq![code] + sized(encode_utf8(k)), a.len() as int) == Ok::<
            OperationView,
            LoggerError,
        >(
            if code == 2 {
                OperationView::Select(k)
            } else {
                OperationView::Delete(k)
            },
        ),
{
    let kb = encode_utf8(k);
    let h = a + seq![code];
    let b = h + sized(kb);
    let i = a.len() as int;
    assert(b[i] == code);
    lemma_sized_text_reads_back(h, k, Seq::empty());
    assert(h + sized(kb) + Seq::<u8>::empty() =~= b);
    lemma_key_parts(b, i, k, i + 1 + 8 + kb.len() as int);
}

/// An operation's bytes read back as the operation.
proof fn lemma_op_reads_back(a: Seq<u8>, op: OperationType)
    requires
        op_fits(op),
    ensures
        read_op(a + op_bytes(op), a.len() as int) == Ok::<OperationView, LoggerError>(op_view(op)),
{
    match op {
        OperationType::Insert(k, v) => {
            lemma_key_value_reads_back(a, 1, k@, v@);
            assert(a + op_bytes(op) =~= a + seq![1u8] + sized(encode_utf8(k@)) + sized(v@));
        },
        OperationType::Update(k, v) => {
            lemma_key_value_reads_back(a, 4, k@, v@);
            assert(a + op_bytes(op) =~= a + seq![4u8] + sized(encode_utf8(k@)) + sized(v@));
        },
        OperationType::Select(k) => {
            lemma_key_reads_back(a, 2, k@);
            assert(a + op_bytes(op) =~= a + seq![2u8] + sized(encode_utf8(k@)));
        },
        OperationType::Delete(k) => {
            lemma_key_reads_back(a, 3, k@);
            assert(a + op_bytes(op) =~= a + seq![3u8] + sized(encode_utf8(k@)));
        },
    }
}

/// A logged operation's record reads back as it was logged (for lengths that fit a word).
pub proof fn lemma_log_roundtrip(log: OperationLog)
    requires
        op_fits(log.op_type),
    ensures
        read_log_spec(log.start_location, log_bytes(log)) == Ok::<LogView, LoggerError>(log_view(log)),
{
    let b = log_bytes(log);
    let c: u8 = if log.completed {
        1u8
    } else {
        0u8
    };
    let w0 = be8(log.id as u64);
    let w1 = be8(log.try_counter as u64);
    let ops = op_bytes(log.op_type);
    lemma_be8_word(log.id as u64);
    lemma_be8_word(log.try_counter as u64);
    let rest = seq![c] + w1 + ops;
    lemma_be8_between(Seq::<u8>::empty(), log.id as u64, rest);
    assert(Seq::<u8>::empty() + w0 + rest =~= b);
    lemma_be8_between(w0 + seq![c], log.try_counter as u64, ops);
    let head = w0 + seq![c] + w1;
    assert(head + ops =~= b);
    assert(b[8] == c);
    lemma_op_reads_back(head, log.op_type);
}

// ------------------------------------------------------------------------------------------
// Walking the records of an operation log.
// ------------------------------------------------------------------------------------------

/// The size of a record read as `v`.
pub open spec fn record_size(v: LogView) -> int {
    18int + match v.op {
        OperationView::Insert(k, val) => encode_utf8(k).len() as int + val.len() as int + 16,
        OperationView::Select(k) => encode_utf8(k).len() as int + 8,
        OperationView::Delete(k) => encode_utf8(k).len() as int + 8,
        OperationView::Update(k, val) => encode_utf8(k).len() as int + val.len() as int + 16,
    }
}

/// The records of a log file read one after another from `offset`, up to the first that
/// does not read.
pub open spec fn logs_from(file: Seq<u8>, offset: int) -> Seq<LogView>
    decreases file.len() - offset,
{
    if offset < 0 || offset >= file.len() {
        Seq::empty()
    } else {
        match read_log_spec(offset as usize, file.subrange(offset, file.len() as int)) {
            Err(_) => Seq::empty(),
            Ok(v) => if offset + record_size(v) <= file.len() {
                seq![v] + logs_from(file, offset + record_size(v))
            } else {
                Seq::empty()
            },
        }
    }
}

/// How many records at the front of `ls` are completed.
pub open spec fn completed_run(ls: Seq<LogView>) -> nat
    decreases ls.len(),
{
    if ls.len() == 0 || !ls[0].completed {
        0
    } else {
        1 + completed_run(ls.drop_first())
    }
}

/// The run of completed records ends where the next record is not completed.
proof fn lemma_completed_run(seen: Seq<LogView>, rest: Seq<LogView>)
    requires
        forall|i: int| 0 <= i < seen.len() ==> (#[trigger] seen[i]).completed,
        rest.len() == 0 || !rest[0].completed,
    ensures
        completed_run(seen + rest) == seen.len(),
    decreases seen.len(),
{
    if seen.len() > 0 {
        assert((seen + rest).drop_first() =~= seen.drop_first() + rest);
        lemma_completed_run(seen.drop_first(), rest);
    } else {
        assert(seen + rest =~= rest);
    }
}

/// The size of a record, unless it does not fit a `usize`.
fn checked_record_size(op: &OperationType) -> (n: Option<usize>)
    ensures
        match n {
            Some(m) => m == op_log_size(*op),
            None => op_log_size(*op) > usize::MAX,
        },
{
    let (k, v) = match op {
        OperationType::Insert(k, v) => (k.as_str().as_bytes().len(), v.len()),
        OperationType::Update(k, v) => (k.as_str().as_bytes().len(), v.len()),
        OperationType::Select(k) => (k.as_str().as_bytes().len(), 0),
        OperationType::Delete(k) => (k.as_str().as_bytes().len(), 0),
    };
    let fixed: usize = match op {
        OperationType::Insert(_, _) => 34,
        OperationType::Update(_, _) => 34,
        _ => 26,
    };
    match k.checked_add(v) {
        None => None,
        Some(kv) => kv.checked_add(fixed),
    }
}

/// Every record from `start_offset` on, up to the first that does not read.
pub fn get_all_logs_from_start(file: &[u8], start_offset: usize) -> (r: Vec<OperationLog>)
    ensures
        r@.map_values(|l: OperationLog| log_view(l)) == logs_from(file@, start_offset as int),
{
    let mut ret: Vec<OperationLog> = Vec::new();
    let mut offset = start_offset;
    loop
        invariant
            ret@.map_values(|l: OperationLog| log_view(l)) + logs_from(file@, offset as int)
                == logs_from(file@, start_offset as int),
        ensures
            ret@.map_values(|l: OperationLog| log_view(l)) + logs_from(file@, offset as int)
                == logs_from(file@, start_offset as int),
            logs_from(file@, offset as int).len() == 0,
        decreases file.len() - offset,
    {
        if offset >= file.len() {
            break;
        }
        let (_, tail) = file.split_at(offset);
        assert(tail@ == file@.subrange(offset as int, file@.len() as int));
        let log = match read_log(offset, tail) {
            Err(_) => break,
            Ok(l) => l,
        };
        let size = match checked_record_size(&log.op_type) {
            None => break,
            Some(n) => n,
        };
        assert(record_size(log_view(log)) == op_log_size(log.op_type));
        if size > file.len() - offset {
            break;
        }
        let ghost before = ret@.map_values(|l: OperationLog| log_view(l));
        ret.push(log);
        assert(ret@.map_values(|l: OperationLog| log_view(l)) =~= before.push(log_view(log)));
        assert(logs_from(file@, offset as int) == seq![log_view(log)] + logs_from(
            file@,
            offset + size,
        ));
        assert(before.push(log_view(log)) + logs_from(file@, offset + size) =~= before + (
        seq![log_view(log)] + logs_from(file@, offset + size)));
        offset = offset + size;
    }
    assert(ret@.map_values(|l: OperationLog| log_view(l)) + logs_from(file@, offset as int)
        =~= ret@.map_values(|l: OperationLog| log_view(l)));
    ret
}

/// Every record of a log file.
pub fn get_all_logs(file: &[u8]) -> (r: Vec<OperationLog>)
    ensures
        r@.map_values(|l: OperationLog| log_view(l)) == logs_from(file@, 0),
{
    get_all_logs_from_start(file, 0)
}

/// The last record of the run of completed records from `start_offset` on; an error
/// naming the offset where the first record there is not completed or does not read.
pub fn get_last_completed_operation(file: &[u8], start_offset: usize) -> (r: Result<
    OperationLog,
    LoggerError,
>)
    ensures
        ({
            let ls = logs_from(file@, start_offset as int);
            let n = completed_run(ls);
            match r {
                Ok(l) => n > 0 && log_view(l) == ls[n - 1],
                Err(e) => n == 0 && e == LoggerError::CantFindLog(start_offset),
            }
        }),
{
    let mut ret: Option<OperationLog> = None;
    let mut offset = start_offset;
    let ghost mut seen: Seq<LogView> = Seq::empty();
    loop
        invariant
            seen + logs_from(file@, offset as int) == logs_from(file@, start_offset as int),
            forall|i: int| 0 <= i < seen.len() ==> (#[trigger] seen[i]).completed,
            match ret {
                None => seen.len() == 0,
                Some(l) => seen.len() > 0 && log_view(l) == seen.last(),
            },
        ensures
            seen + logs_from(file@, offset as int) == logs_from(file@, start_offset as int),
            forall|i: int| 0 <= i < seen.len() ==> (#[trigger] seen[i]).completed,
            match ret {
                None => seen.len() == 0,
                Some(l) => seen.len() > 0 && log_view(l) == seen.last(),
            },
            logs_from(file@, offset as int).len() == 0 || !logs_from(file@, offset as int)[0].completed,
        decreases file.len() - offset,
    {
        let ghost rest = logs_from(file@, offset as int);
        if offset >= file.len() {
            assert(rest.len() == 0);
            break;
        }
        let (_, tail) = file.split_at(offset);
        assert(tail@ == file@.subrange(offset as int, file@.len() as int));
        let log = match read_log(offset, tail) {
            Err(_) => {
                assert(rest.len() == 0);
                break;
            },
            Ok(l) => l,
        };
        let size = match checked_record_size(&log.op_type) {
            None => {
                assert(rest.len() == 0);
                break;
            },
            Some(n) => n,
        };
        assert(record_size(log_view(log)) == op_log_size(log.op_type));
        if size > file.len() - offset {
            assert(rest.len() == 0);
            break;
        }
        assert(rest == seq![log_view(log)] + logs_from(file@, offset + size));
        if !log.completed {
            assert(!rest[0].completed);
            break;
        }
        proof {
            assert(seen.push(log_view(log)) + logs_from(file@, offset + size) =~= seen + rest);
            seen = seen.push(log_view(log));
        }
        ret = Some(log);
        offset = offset + size;
    }
    proof {
        lemma_completed_run(seen, logs_from(file@, offset as int));
    }
    match ret {
        Some(l) => Ok(l),
        None => Err(LoggerError::CantFindLog(start_offset)),
    }
}

// ------------------------------------------------------------------------------------------
// Updating records in place.
// ------------------------------------------------------------------------------------------

/// Marks the record that starts at `log_start` as completed.
pub fn mark_log_as_completed(file: &mut Vec<u8>, log_start: usize)
    requires
        log_start + 9 <= usize::MAX,
    ensures
        final(file)@ == patched(old(file)@, log_start + 8, seq![1u8]),
{
    let one: [u8; 1] = [1u8];
    write_at(file, log_start + 8, one.as_slice());
    assert(one@ =~= seq![1u8]);
}

/// Writes one more try into the record of `log`.
pub fn increment_log_try_counter(file: &mut Vec<u8>, log: &OperationLog)
    requires
        log.try_counter < usize::MAX,
        log.start_location + 17 <= usize::MAX,
    ensures
        final(file)@ == patched(old(file)@, log.start_location + 9, be8((log.try_counter + 1) as u64)),
{
    let mut w: Vec<u8> = Vec::new();
    push_word(&mut w, (log.try_counter + 1) as u64);
    assert(w@ =~= be8((log.try_counter + 1) as u64));
    write_at(file, log.start_location + 9, w.as_slice());
}

/// What is read at `j` depends on no byte before `p`.
proof fn lemma_read_sized_frame(b1: Seq<u8>, b2: Seq<u8>, p: int, j: int)
    requires
        b1.len() == b2.len(),
        0 <= p <= j,
        forall|i: int| p <= i < b1.len() ==> b1[i] == b2[i],
    ensures
        read_sized(b1, j) == read_sized(b2, j),
{
    reveal(read_sized);
    if j + 8 <= b1.len() {
        assert(be_word(b1, j) == be_word(b2, j)) by {
            assert(b1[j] == b2[j]);
            assert(b1[j + 1] == b2[j + 1]);
            assert(b1[j + 2] == b2[j + 2]);
            assert(b1[j + 3] == b2[j + 3]);
            assert(b1[j + 4] == b2[j + 4]);
            assert(b1[j + 5] == b2[j + 5]);
            assert(b1[j + 6] == b2[j + 6]);
            assert(b1[j + 7] == b2[j + 7]);
        }
        let e = j + 8 + be_word(b1, j) as int;
        if e <= b1.len() {
            assert(b1.subrange(j + 8, e) =~= b2.subrange(j + 8, e));
        }
    }
}

/// How an operation reads at `p` depends on no byte before `p`.
proof fn lemma_read_op_frame(b1: Seq<u8>, b2: Seq<u8>, p: int)
    requires
        b1.len() == b2.len(),
        0 <= p < b1.len(),
        forall|i: int| p <= i < b1.len() ==> b1[i] == b2[i],
    ensures
        read_op(b1, p) == read_op(b2, p),
{
    reveal(read_op);
    reveal(read_sized_text);
    reveal(read_sized);
    lemma_read_sized_frame(b1, b2, p, p + 1);
    match read_sized(b1, p + 1) {
        Ok((_, e1)) => {
            lemma_read_sized_frame(b1, b2, p, e1);
        },
        Err(_) => {},
    }
}

/// Marking a record as completed leaves the rest of it as it read.
pub proof fn lemma_mark_then_read(f: Seq<u8>, start: usize, v: LogView)
    requires
        start + 9 <= usize::MAX,
        start < f.len(),
        read_log_spec(start, f.subrange(start as int, f.len() as int)) == Ok::<LogView, LoggerError>(v),
    ensures
        ({
            let g = patched(f, start + 8, seq![1u8]);
            read_log_spec(start, g.subrange(start as int, g.len() as int)) == Ok::<LogView, LoggerError>(
                LogView { completed: true, ..v },
            )
        }),
{
    let g = patched(f, start + 8, seq![1u8]);
    let b1 = f.subrange(start as int, f.len() as int);
    let b2 = g.subrange(start as int, g.len() as int);
    assert(b1.len() >= 18);
    assert(g.len() == f.len());
    assert(b2[8] == 1);
    assert forall|i: int| 0 <= i < b1.len() && i != 8 implies b1[i] == b2[i] by {}
    assert(be_word(b1, 0) == be_word(b2, 0)) by {
        assert(b1[0] == b2[0]);
        assert(b1[1] == b2[1]);
        assert(b1[2] == b2[2]);
        assert(b1[3] == b2[3]);
        assert(b1[4] == b2[4]);
        assert(b1[5] == b2[5]);
        assert(b1[6] == b2[6]);
        assert(b1[7] == b2[7]);
    }
    assert(be_word(b1, 9) == be_word(b2, 9)) by {
        assert(b1[9] == b2[9]);
        assert(b1[10] == b2[10]);
        assert(b1[11] == b2[11]);
        assert(b1[12] == b2[12]);
        assert(b1[13] == b2[13]);
        assert(b1[14] == b2[14]);
        assert(b1[15] == b2[15]);
        assert(b1[16] == b2[16]);
    }
    lemma_read_op_frame(b1, b2, 17);
}

/// One more try written into a record reads back as one more try, the rest as it read.
pub proof fn lemma_increment_then_read(f: Seq<u8>, start: usize, v: LogView)
    requires
        start + 17 <= usize::MAX,
        start < f.len(),
        v.try_counter < usize::MAX,
        read_log_spec(start, f.subrange(start as int, f.len() as int)) == Ok::<LogView, LoggerError>(v),
    ensures
        ({
            let g = patched(f, start + 9, be8((v.try_counter + 1) as u64));
            read_log_spec(start, g.subrange(start as int, g.len() as int)) == Ok::<LogView, LoggerError>(
                LogView { try_counter: (v.try_counter + 1) as usize, ..v },
            )
        }),
{
    let w = be8((v.try_counter + 1) as u64);
    let g = patched(f, start + 9, w);
    let b1 = f.subrange(start as int, f.len() as int);
    let b2 = g.subrange(start as int, g.len() as int);
    lemma_be8_word((v.try_counter + 1) as u64);
    assert(b1.len() >= 18);
    assert(g.len() == f.len());
    assert forall|i: int| 0 <= i < b1.len() && !(9 <= i < 17) implies b1[i] == b2[i] by {}
    assert forall|i: int| 9 <= i < 17 implies b2[i] == w[i - 9] by {}
    assert(be_word(b2, 9) == be_word(w, 0)) by {
        assert(b2[9] == w[0]);
        assert(b2[10] == w[1]);
        assert(b2[11] == w[2]);
        assert(b2[12] == w[3]);
        assert(b2[13] == w[4]);
        assert(b2[14] == w[5]);
        assert(b2[15] == w[6]);
        assert(b2[16] == w[7]);
    }
    assert(be_word(b1, 0) == be_word(b2, 0)) by {
        assert(b1[0] == b2[0]);
        assert(b1[1] == b2[1]);
        assert(b1[2] == b2[2]);
        assert(b1[3] == b2[3]);
        assert(b1[4] == b2[4]);
        assert(b1[5] == b2[5]);
        assert(b1[6] == b2[6]);
        assert(b1[7] == b2[7]);
    }
    assert(b1[8] == b2[8]);
    lemma_read_op_frame(b1, b2, 17);
}

// ------------------------------------------------------------------------------------------
// Settings files.
// ------------------------------------------------------------------------------------------

/// A logger's entry in the loggers' settings file: its next number, then its file's name,
/// length-prefixed.
pub open spec fn logger_information_bytes(id: usize, file_name: Seq<char>) -> Seq<u8> {
    be8(id as u64) + sized(encode_utf8(file_name))
}

/// How a logger's entry reads at `i`: its number, its file's name, and where the entry
/// ends; a settings error where the bytes end first or the name is not UTF-8.
pub open spec fn read_logger_information_spec(b: Seq<u8>, i: int) -> Result<
    (usize, Seq<char>, int),
    LoggerError,
> {
    if i < 0 || i + 8 > b.len() {
        Err(LoggerError::CantReadFromConfigFile)
    } else {
        match read_sized_text(b, i + 8) {
            Ok((name, e)) => Ok((be_word(b, i) as usize, name, e)),
            Err(_) => Err(LoggerError::CantReadFromConfigFile),
        }
    }
}

/// A logger's entry in the loggers' settings file.
pub fn write_logger_information(id: usize, file_name: &String) -> (r: Vec<u8>)
    ensures
        r@ == logger_information_bytes(id, file_name@),
{
    let mut out: Vec<u8> = Vec::new();
    push_word(&mut out, id as u64);
    push_sized(&mut out, file_name.as_str().as_bytes());
    out
}

/// Reads a logger's entry at `i`.
pub fn read_logger_information(b: &[u8], i: usize) -> (r: Result<(usize, String, usize), LoggerError>)
    ensures
        match read_logger_information_spec(b@, i as int) {
            Ok((id, name, e)) => r matches Ok((id2, name2, e2)) && id2 == id && name2@ == name
                && e2 == e,
            Err(x) => r == Err::<(usize, String, usize), LoggerError>(x),
        },
{
    if i > b.len() || b.len() - i < 8 {
        return Err(LoggerError::CantReadFromConfigFile);
    }
    let id = read_word(b, i) as usize;
    match read_sized_string(b, i + 8) {
        Ok((name, e)) => Ok((id, name, e)),
        Err(_) => Err(LoggerError::CantReadFromConfigFile),
    }
}

/// The loggers' settings file: the operation logger's entry, then the general logger's.
pub fn logger_config(op_id: usize, op_path: &String, gen_id: usize, gen_path: &String) -> (r: Vec<u8>)
    ensures
        r@ == logger_information_bytes(op_id, op_path@) + logger_information_bytes(gen_id, gen_path@),
{
    let mut out = write_logger_information(op_id, op_path);
    let second = write_logger_information(gen_id, gen_path);
    push_sized_all(&mut out, second.as_slice());
    out
}

/// Appends bytes.
fn push_sized_all(out: &mut Vec<u8>, b: &[u8])
    ensures
        final(out)@ == old(out)@ + b@,
{
    let mut i: usize = 0;
    while i < b.len()
        invariant
            i <= b.len(),
            out@ == old(out)@ + b@.take(i as int),
        decreases b.len() - i,
    {
        out.push(b[i]);
        assert(b@.take(i + 1) =~= b@.take(i as int).push(b@[i as int]));
        i += 1;
    }
    assert(b@.take(b.len() as int) =~= b@);
}

/// Reads the loggers' settings file: the operation logger's number and file, then the
/// general logger's.
pub fn read_logger_config(b: &[u8]) -> (r: Result<(usize, String, usize, String), LoggerError>)
    ensures
        match read_logger_information_spec(b@, 0) {
            Err(x) => r == Err::<(usize, String, usize, String), LoggerError>(x),
            Ok((op_id, op_path, e)) => match read_logger_information_spec(b@, e) {
                Err(x) => r == Err::<(usize, String, usize, String), LoggerError>(x),
                Ok((gen_id, gen_path, _)) => r matches Ok((a, b2, c, d)) && a == op_id && b2@
                    == op_path && c == gen_id && d@ == gen_path,
            },
        },
{
    let (op_id, op_path, e) = read_logger_information(b, 0)?;
    let (gen_id, gen_path, _) = read_logger_information(b, e)?;
    Ok((op_id, op_path, gen_id, gen_path))
}

/// A logger's entry reads back where it was written, for a name whose length fits a word.
pub proof fn lemma_logger_information_roundtrip(a: Seq<u8>, id: usize, file_name: Seq<char>, c: Seq<u8>)
    requires
        encode_utf8(file_name).len() <= u64::MAX,
    ensures
        read_logger_information_spec(a + logger_information_bytes(id, file_name) + c, a.len() as int)
            == Ok::<(usize, Seq<char>, int), LoggerError>(
            (id, file_name, a.len() as int + 16 + encode_utf8(file_name).len() as int),
        ),
{
    let kb = encode_utf8(file_name);
    let b = a + logger_information_bytes(id, file_name) + c;
    lemma_be8_word(id as u64);
    lemma_be8_between(a, id as u64, sized(kb) + c);
    assert(a + be8(id as u64) + (sized(kb) + c) =~= b);
    lemma_sized_text_reads_back(a + be8(id as u64), file_name, c);
    assert(a + be8(id as u64) + sized(kb) + c =~= b);
}

/// The loggers' settings file reads back as written (for names whose lengths fit a word).
pub proof fn lemma_logger_config_roundtrip(op_id: usize, op_path: Seq<char>, gen_id: usize, gen_path: Seq<char>)
    requires
        encode_utf8(op_path).len() <= u64::MAX,
        encode_utf8(gen_path).len() <= u64::MAX,
    ensures
        ({
            let b = logger_information_bytes(op_id, op_path) + logger_information_bytes(gen_id, gen_path);
            &&& read_logger_information_spec(b, 0) == Ok::<(usize, Seq<char>, int), LoggerError>(
                (op_id, op_path, 16 + encode_utf8(op_path).len() as int),
            )
            &&& read_logger_information_spec(b, 16 + encode_utf8(op_path).len() as int) == Ok::<
                (usize, Seq<char>, int),
                LoggerError,
            >((gen_id, gen_path, b.len() as int))
        }),
{
    let first = logger_information_bytes(op_id, op_path);
    let second = logger_information_bytes(gen_id, gen_path);
    lemma_logger_information_roundtrip(Seq::empty(), op_id, op_path, second);
    assert(Seq::<u8>::empty() + first + second =~= first + second);
    lemma_logger_information_roundtrip(first, gen_id, gen_path, Seq::empty());
    assert(first + second + Seq::<u8>::empty() =~= first + second);
}

/// A backup's settings: the number of the last operation it holds, then where that
/// operation's record starts.
pub open spec fn restorer_settings_bytes(last_op_id: usize, last_op_start: usize) -> Seq<u8> {
    be8(last_op_id as u64) + be8(last_op_start as u64)
}

/// The path of a backup's settings file.
pub open spec fn restorer_settings_path(name: Seq<char>) -> Seq<char> {
    restorer_path(name) + "\\"@ + name + ".restorer.config"@
}

/// A backup's settings.
pub fn restorer_settings(last_op_id: usize, last_op_start: usize) -> (r: Vec<u8>)
    ensures
        r@ == restorer_settings_bytes(last_op_id, last_op_start),
{
    let mut out: Vec<u8> = Vec::new();
    push_word(&mut out, last_op_id as u64);
    push_word(&mut out, last_op_start as u64);
    out
}

impl Restorer {
    /// The path of the backup's settings file.
    pub fn settings_path(&self) -> (r: String)
        ensures
            r@ == restorer_settings_path(self.name@),
    {
        let mut path = self.name.clone();
        path.append("_");
        path.append("backup");
        path.append("\\");
        path.append(self.name.as_str());
        path.append(RESTORER_SETTINGS_FILE_ENDING);
        path
    }

    /// The backup of `name` whose settings file holds `settings`: the number of the last
    /// operation it holds, then where that operation's record starts; an error for each
    /// that is missing.
    pub fn load(name: String, settings: &[u8]) -> (r: Result<Restorer, LoggerError>)
        ensures
            settings.len() < 8 ==> r == Err::<Restorer, LoggerError>(LoggerError::CantLoadLastId),
            8 <= settings.len() < 16 ==> r == Err::<Restorer, LoggerError>(
                LoggerError::CantLoadLastOpStart,
            ),
            settings.len() >= 16 ==> (r matches Ok(res) && res.name@ == name@ && res.last_op_id
                == be_word(settings@, 0) as usize && res.last_op_start == be_word(settings@, 8) as usize),
    {
        if settings.len() < 8 {
            return Err(LoggerError::CantLoadLastId);
        }
        let last_op_id = read_word(settings, 0) as usize;
        if settings.len() < 16 {
            return Err(LoggerError::CantLoadLastOpStart);
        }
        let last_op_start = read_word(settings, 8) as usize;
        Ok(Restorer { name, last_op_id, last_op_start })
    }

    /// Moves the backup up to the last completed operation of the run from its last
    /// operation on, read from the operation log `file`; gives the new settings to write.
    /// Fails, changing nothing, where the record at the last operation does not read as
    /// completed.
    pub fn update(&mut self, file: &[u8]) -> (r: Result<Vec<u8>, LoggerError>)
        ensures
            ({
                let ls = logs_from(file@, old(self).last_op_start as int);
                let n = completed_run(ls);
                if n == 0 {
                    &&& r == Err::<Vec<u8>, LoggerError>(
                        LoggerError::CantFindLog(old(self).last_op_start),
                    )
                    &&& *final(self) == *old(self)
                } else {
                    &&& r matches Ok(settings) && settings@ == restorer_settings_bytes(
                        ls[n - 1].id,
                        ls[n - 1].start_location,
                    )
                    &&& final(self).name == old(self).name
                    &&& final(self).last_op_id == ls[n - 1].id
                    &&& final(self).last_op_start == ls[n - 1].start_location
                }
            }),
    {
        let last = get_last_completed_operation(file, self.last_op_start)?;
        let settings = restorer_settings(last.id, last.start_location);
        self.last_op_id = last.id;
        self.last_op_start = last.start_location;
        Ok(settings)
    }
}

/// A backup's settings read back as written.
pub proof fn lemma_restorer_settings_roundtrip(last_op_id: usize, last_op_start: usize)
    ensures
        restorer_settings_bytes(last_op_id, last_op_start).len() == 16,
        be_word(restorer_settings_bytes(last_op_id, last_op_start), 0) as usize == last_op_id,
        be_word(restorer_settings_bytes(last_op_id, last_op_start), 8) as usize == last_op_start,
{
    lemma_be8_word(last_op_id as u64);
    lemma_be8_word(last_op_start as u64);
    lemma_be8_between(Seq::empty(), last_op_id as u64, be8(last_op_start as u64));
    assert(Seq::<u8>::empty() + be8(last_op_id as u64) + be8(last_op_start as u64) =~= restorer_settings_bytes(
        last_op_id,
        last_op_start,
    ));
    lemma_be8_between(be8(last_op_id as u64), last_op_start as u64, Seq::empty());
    assert(be8(last_op_id as u64) + be8(last_op_start as u64) + Seq::<u8>::empty() =~= restorer_settings_bytes(
        last_op_id,
        last_op_start,
    ));
}

// ------------------------------------------------------------------------------------------
// Recovery from the operation log.
// ------------------------------------------------------------------------------------------

/// The key of the last insertion among `ls`.
pub open spec fn last_insert_key(ls: Seq<LogView>) -> Option<Seq<char>>
    decreases ls.len(),
{
    if ls.len() == 0 {
        None
    } else {
        match ls.last().op {
            OperationView::Insert(k, _) => Some(k),
            _ => last_insert_key(ls.drop_last()),
        }
    }
}

/// The key found is the key of an insertion after which no other insertion was logged;
/// no key is found exactly when no insertion was logged.
pub proof fn lemma_last_insert_key_is_last(ls: Seq<LogView>)
    ensures
        match last_insert_key(ls) {
            Some(k) => exists|i: int|
                0 <= i < ls.len() && (#[trigger] ls[i].op matches OperationView::Insert(kk, _) && kk == k)
                    && forall|j: int| i < j < ls.len() ==> !(#[trigger] ls[j].op is Insert),
            None => forall|j: int| 0 <= j < ls.len() ==> !(#[trigger] ls[j].op is Insert),
        },
    decreases ls.len(),
{
    if ls.len() > 0 {
        let d = ls.drop_last();
        lemma_last_insert_key_is_last(d);
        let n = ls.len() - 1;
        assert(ls.last() == ls[n]);
        match ls.last().op {
            OperationView::Insert(k, _) => {
                assert(ls[n].op matches OperationView::Insert(kk, _) && kk == k);
            },
            _ => {
                match last_insert_key(d) {
                    Some(k) => {
                        let i = choose|i: int|
                            0 <= i < d.len() && (#[trigger] d[i].op matches OperationView::Insert(kk, _) && kk == k)
                                && forall|j: int| i < j < d.len() ==> !(#[trigger] d[j].op is Insert);
                        assert(ls[i] == d[i]);
                        assert forall|j: int| i < j < ls.len() implies !(#[trigger] ls[j].op is Insert) by {
                            if j < n {
                                assert(ls[j] == d[j]);
                            }
                        }
                    },
                    None => {
                        assert forall|j: int| 0 <= j < ls.len() implies !(#[trigger] ls[j].op is Insert) by {
                            if j < n {
                                assert(ls[j] == d[j]);
                            }
                        }
                    },
                }
            },
        }
    }
}

/// The key of the last insertion logged from `start` on.
pub fn get_last_inserted_key(file: &[u8], start: usize) -> (r: Option<String>)
    ensures
        match last_insert_key(logs_from(file@, start as int)) {
            Some(k) => r matches Some(s) && s@ == k,
            None => r is None,
        },
{
    let mut logs = get_all_logs_from_start(file, start);
    let ghost all = logs@.map_values(|l: OperationLog| log_view(l));
    loop
        invariant
            all == logs_from(file@, start as int),
            last_insert_key(logs@.map_values(|l: OperationLog| log_view(l))) == last_insert_key(all),
        decreases logs.len(),
    {
        let ghost before = logs@.map_values(|l: OperationLog| log_view(l));
        match logs.pop() {
            None => {
                assert(before.len() == 0);
                return None;
            },
            Some(log) => {
                assert(before.drop_last() =~= logs@.map_values(|l: OperationLog| log_view(l)));
                assert(before.last() == log_view(log));
                match log.op_type {
                    OperationType::Insert(k, _) => {
                        return Some(k);
                    },
                    _ => {},
                }
            },
        }
    }
}

/// Whether a logged operation is still to be redone: not completed, and tried fewer than
/// the most times.
pub open spec fn to_redo(v: LogView) -> bool {
    !v.completed && v.try_counter < MAX_TRY_COUNTER
}

/// Whether a logged operation has failed for good: not completed, and tried the most times.
pub open spec fn failed_for_good(v: LogView) -> bool {
    !v.completed && v.try_counter >= MAX_TRY_COUNTER
}

/// The operations among `ls` still to be redone, in order.
pub open spec fn redo_logs(ls: Seq<LogView>) -> Seq<LogView>
    decreases ls.len(),
{
    if ls.len() == 0 {
        Seq::empty()
    } else if to_redo(ls.last()) {
        redo_logs(ls.drop_last()).push(ls.last())
    } else {
        redo_logs(ls.drop_last())
    }
}

/// The operations among `ls` that failed for good, in order.
pub open spec fn failed_logs(ls: Seq<LogView>) -> Seq<LogView>
    decreases ls.len(),
{
    if ls.len() == 0 {
        Seq::empty()
    } else if failed_for_good(ls.last()) {
        failed_logs(ls.drop_last()).push(ls.last())
    } else {
        failed_logs(ls.drop_last())
    }
}

/// `f` with the records that start at `starts` marked as completed, one after another.
pub open spec fn mark_all(f: Seq<u8>, starts: Seq<usize>) -> Seq<u8>
    decreases starts.len(),
{
    if starts.len() == 0 {
        f
    } else {
        patched(mark_all(f, starts.drop_last()), starts.last() + 8, seq![1u8])
    }
}

/// The operations logged from `last_op_start` on that are still to be redone; those that
/// failed for good are marked as completed in `file` and handed back, to go to the fail log.
pub fn get_un_completed_operations(file: &mut Vec<u8>, last_op_start: usize) -> (r: (
    Vec<OperationLog>,
    Vec<OperationType>,
))
    ensures
        ({
            let ls = logs_from(old(file)@, last_op_start as int);
            &&& r.0@.map_values(|l: OperationLog| log_view(l)) == redo_logs(ls)
            &&& r.1@.map_values(|o: OperationType| op_view(o)) == failed_logs(ls).map_values(
                |v: LogView| v.op,
            )
            &&& final(file)@ == mark_all(
                old(file)@,
                failed_logs(ls).map_values(|v: LogView| v.start_location),
            )
        }),
{
    let ghost f0 = file@;
    let mut redo: Vec<OperationLog> = Vec::new();
    let mut failed: Vec<OperationType> = Vec::new();
    let mut starts: Vec<usize> = Vec::new();
    let mut offset = last_op_start;
    let ghost mut seen: Seq<LogView> = Seq::empty();
    loop
        invariant
            file@ == f0,
            seen + logs_from(f0, offset as int) == logs_from(f0, last_op_start as int),
            redo@.map_values(|l: OperationLog| log_view(l)) == redo_logs(seen),
            failed@.map_values(|o: OperationType| op_view(o)) == failed_logs(seen).map_values(
                |v: LogView| v.op,
            ),
            starts@ == failed_logs(seen).map_values(|v: LogView| v.start_location),
            forall|k: int| 0 <= k < starts@.len() ==> #[trigger] starts@[k] + 26 <= f0.len(),
        ensures
            file@ == f0,
            seen == logs_from(f0, last_op_start as int),
            redo@.map_values(|l: OperationLog| log_view(l)) == redo_logs(seen),
            failed@.map_values(|o: OperationType| op_view(o)) == failed_logs(seen).map_values(
                |v: LogView| v.op,
            ),
            starts@ == failed_logs(seen).map_values(|v: LogView| v.start_location),
            forall|k: int| 0 <= k < starts@.len() ==> #[trigger] starts@[k] + 26 <= f0.len(),
        decreases file.len() - offset,
    {
        let ghost rest = logs_from(f0, offset as int);
        if offset >= file.len() {
            assert(seen + rest =~= seen);
            break;
        }
        let (_, tail) = file.as_slice().split_at(offset);
        assert(tail@ == f0.subrange(offset as int, f0.len() as int));
        let log = match read_log(offset, tail) {
            Err(_) => {
                assert(seen + rest =~= seen);
                break;
            },
            Ok(l) => l,
        };
        let size = match checked_record_size(&log.op_type) {
            None => {
                assert(seen + rest =~= seen);
                break;
            },
            Some(n) => n,
        };
        assert(record_size(log_view(log)) == op_log_size(log.op_type));
        if size > file.len() - offset {
            assert(seen + rest =~= seen);
            break;
        }
        let ghost v = log_view(log);
        assert(rest == seq![v] + logs_from(f0, offset + size));
        proof {
            assert(seen.push(v) + logs_from(f0, offset + size) =~= seen + rest);
            assert(seen.push(v).drop_last() =~= seen);
        }
        let ghost redo_before = redo@.map_values(|l: OperationLog| log_view(l));
        let ghost failed_before = failed@.map_values(|o: OperationType| op_view(o));
        let ghost fl = failed_logs(seen);
        if !log.completed && log.try_counter >= MAX_TRY_COUNTER {
            let start = log.start_location;
            assert(fl.push(v).map_values(|x: LogView| x.start_location) =~= fl.map_values(
                |x: LogView| x.start_location,
            ).push(start));
            assert(fl.push(v).map_values(|x: LogView| x.op) =~= fl.map_values(|x: LogView| x.op).push(
                op_view(log.op_type),
            ));
            starts.push(start);
            failed.push(log.op_type);
            assert(failed@.map_values(|o: OperationType| op_view(o)) =~= failed_before.push(v.op));
        } else if !log.completed {
            redo.push(log);
            assert(redo@.map_values(|l: OperationLog| log_view(l)) =~= redo_before.push(v));
        }
        proof {
            seen = seen.push(v);
        }
        offset = offset + size;
    }
    let mut j: usize = 0;
    while j < starts.len()
        invariant
            j <= starts.len(),
            file@ == mark_all(f0, starts@.take(j as int)),
            file@.len() == f0.len(),
            forall|k: int| 0 <= k < starts@.len() ==> #[trigger] starts@[k] + 26 <= f0.len(),
        decreases starts.len() - j,
    {
        let start = starts[j];
        let n = file.len();
        assert(starts@[j as int] + 26 <= n);
        mark_log_as_completed(file, start);
        assert(starts@.take(j + 1).drop_last() =~= starts@.take(j as int));
        j += 1;
    }
    assert(starts@.take(starts.len() as int) =~= starts@);
    (redo, failed)
}

// ------------------------------------------------------------------------------------------
// The fail log.
// ------------------------------------------------------------------------------------------

/// A list of bytes as text: their numbers, separated by a comma and a space, in brackets.
pub open spec fn byte_list_text(v: Seq<u8>) -> Seq<char> {
    "["@ + join(v.map_values(|b: u8| int_text(b as int)), ", "@) + "]"@
}

/// An operation as text: its name, its key, and for writes a colon and the value's bytes.
pub open spec fn op_text(op: OperationType) -> Seq<char> {
    match op {
        OperationType::Insert(k, v) => "Insert "@ + k@ + ":"@ + byte_list_text(v@),
        OperationType::Select(k) => "Select "@ + k@,
        OperationType::Delete(k) => "Delete "@ + k@,
        OperationType::Update(k, v) => "Update "@ + k@ + ":"@ + byte_list_text(v@),
    }
}

/// Appends chars.
fn push_chars(out: &mut Vec<char>, s: &[char])
    ensures
        final(out)@ == old(out)@ + s@,
{
    let mut i: usize = 0;
    while i < s.len()
        invariant
            i <= s.len(),
            out@ == old(out)@ + s@.take(i as int),
        decreases s.len() - i,
    {
        out.push(s[i]);
        assert(s@.take(i + 1) =~= s@.take(i as int).push(s@[i as int]));
        i += 1;
    }
    assert(s@.take(s.len() as int) =~= s@);
}

/// Appends the chars of a text.
fn push_str(out: &mut Vec<char>, s: &str)
    ensures
        final(out)@ == old(out)@ + s@,
{
    let v = chars_of(s);
    push_chars(out, v.as_slice());
}

/// Appends a list of bytes as text.
fn push_byte_list(out: &mut Vec<char>, v: &Vec<u8>)
    ensures
        final(out)@ == old(out)@ + byte_list_text(v@),
{
    let ghost head = old(out)@;
    proof {
        reveal_strlit("[");
        reveal_strlit("]");
        reveal_strlit(", ");
    }
    out.push('[');
    assert(out@ =~= head + "["@);
    let ghost ts = v@.map_values(|b: u8| int_text(b as int));
    let mut i: usize = 0;
    while i < v.len()
        invariant
            i <= v.len(),
            ts == v@.map_values(|b: u8| int_text(b as int)),
            out@ == head + "["@ + join(ts.take(i as int), ", "@),
            ", "@ == seq![',', ' '],
        decreases v.len() - i,
    {
        proof {
            lemma_join_push(ts.take(i as int), ts[i as int], ", "@);
            assert(ts.take(i as int).push(ts[i as int]) =~= ts.take(i + 1));
        }
        if i > 0 {
            out.push(',');
            out.push(' ');
        }
        let digits = write_u128(v[i] as u128);
        push_chars(out, digits.as_slice());
        assert(out@ =~= head + "["@ + join(ts.take(i + 1), ", "@));
        i += 1;
    }
    assert(ts.take(v.len() as int) =~= ts);
    out.push(']');
    assert(out@ =~= head + byte_list_text(v@));
}

impl OperationType {
    /// The operation as text (see [`op_text`]).
    pub fn to_string(&self) -> (s: String)
        ensures
            s@ == op_text(*self),
    {
        let mut out: Vec<char> = Vec::new();
        match self {
            OperationType::Insert(k, v) => {
                push_str(&mut out, "Insert ");
                push_str(&mut out, k.as_str());
                push_str(&mut out, ":");
                push_byte_list(&mut out, v);
            },
            OperationType::Select(k) => {
                push_str(&mut out, "Select ");
                push_str(&mut out, k.as_str());
            },
            OperationType::Delete(k) => {
                push_str(&mut out, "Delete ");
                push_str(&mut out, k.as_str());
            },
            OperationType::Update(k, v) => {
                push_str(&mut out, "Update ");
                push_str(&mut out, k.as_str());
                push_str(&mut out, ":");
                push_byte_list(&mut out, v);
            },
        }
        assert(out@ =~= op_text(*self));
        string_of(out.as_slice())
    }
}

/// The record an operation that failed for good is written to the fail log as: its text,
/// length-prefixed.
pub fn fail_log_record(op: &OperationType) -> (r: Vec<u8>)
    ensures
        r@ == sized(encode_utf8(op_text(*op))),
{
    let text = op.to_string();
    let mut out: Vec<u8> = Vec::new();
    push_sized(&mut out, text.as_str().as_bytes());
    out
}

// ------------------------------------------------------------------------------------------
// The operation logger and the logger of a store.
// ------------------------------------------------------------------------------------------

/// A record's size is the size of its operation's record.
proof fn lemma_log_bytes_len(log: OperationLog)
    ensures
        log_bytes(log).len() == op_log_size(log.op_type),
{
}

/// The bytes of a log file from `start` on (none when it starts past the end).
pub open spec fn tail_from(f: Seq<u8>, start: int) -> Seq<u8> {
    if 0 <= start <= f.len() {
        f.subrange(start, f.len() as int)
    } else {
        Seq::empty()
    }
}

/// The operation log of a store: the bytes of its file, and the number the next operation
/// gets.
pub struct OperationLogger {
    pub log_file: Vec<u8>,
    pub id: usize,
}

/// A copy of bytes.
fn copy_bytes(v: &Vec<u8>) -> (r: Vec<u8>)
    ensures
        r@ == v@,
{
    let mut r: Vec<u8> = Vec::new();
    let mut i: usize = 0;
    while i < v.len()
        invariant
            i <= v.len(),
            r@ == v@.take(i as int),
        decreases v.len() - i,
    {
        r.push(v[i]);
        assert(v@.take(i + 1) =~= v@.take(i as int).push(v@[i as int]));
        i += 1;
    }
    assert(v@.take(v.len() as int) =~= v@);
    r
}

impl OperationLogger {
    /// The operation log whose file holds `log_file`, numbering from `id`.
    pub fn new(log_file: Vec<u8>, id: usize) -> (r: OperationLogger)
        ensures
            r.log_file@ == log_file@,
            r.id == id,
    {
        OperationLogger { log_file, id }
    }

    /// Appends the record of an operation, not yet completed and not yet tried, under the
    /// next number, and returns it; its record starts where the file ended.
    pub fn log_operation(&mut self, op_type: OperationType) -> (r: Result<OperationLog, LoggerError>)
        requires
            old(self).id < usize::MAX,
            old(self).log_file@.len() + op_log_size(op_type) <= usize::MAX,
        ensures
            r matches Ok(log) && log.completed == false && log.id == old(self).id
                && log.start_location == old(self).log_file@.len() && log.try_counter == 0
                && log.op_type == op_type && final(self).log_file@ == old(self).log_file@
                + log_bytes(log),
            final(self).id == old(self).id + 1,
    {
        let start_location = self.log_file.len();
        let log = OperationLog { completed: false, id: self.id, start_location, try_counter: 0, op_type };
        let record = write_log(&log);
        proof {
            lemma_log_bytes_len(log);
        }
        push_sized_all(&mut self.log_file, record.as_slice());
        self.id = self.id + 1;
        Ok(log)
    }

    /// The record that starts at `start_location`.
    pub fn read_log(&self, start_location: usize) -> (r: Result<OperationLog, LoggerError>)
        ensures
            match read_log_spec(start_location, tail_from(self.log_file@, start_location as int)) {
                Ok(v) => r matches Ok(l) && log_view(l) == v,
                Err(x) => r == Err::<OperationLog, LoggerError>(x),
            },
    {
        if start_location > self.log_file.len() {
            let empty: Vec<u8> = Vec::new();
            return read_log(start_location, empty.as_slice());
        }
        let (_, tail) = self.log_file.as_slice().split_at(start_location);
        read_log(start_location, tail)
    }

    /// Marks the record that starts at `log_start` as completed.
    pub fn mark_log_as_completed(&mut self, log_start: usize) -> (r: Result<(), LoggerError>)
        requires
            log_start + 9 <= usize::MAX,
        ensures
            r is Ok,
            final(self).log_file@ == patched(old(self).log_file@, log_start + 8, seq![1u8]),
            final(self).id == old(self).id,
    {
        mark_log_as_completed(&mut self.log_file, log_start);
        Ok(())
    }

    /// Writes one more try into the record of `log`.
    pub fn increment_log_try_counter(&mut self, log: &OperationLog) -> (r: Result<(), LoggerError>)
        requires
            log.try_counter < usize::MAX,
            log.start_location + 17 <= usize::MAX,
        ensures
            r is Ok,
            final(self).log_file@ == patched(
                old(self).log_file@,
                log.start_location + 9,
                be8((log.try_counter + 1) as u64),
            ),
            final(self).id == old(self).id,
    {
        increment_log_try_counter(&mut self.log_file, log);
        Ok(())
    }

    /// The number the next operation gets.
    pub fn get_id(&self) -> (id: usize)
        ensures
            id == self.id,
    {
        self.id
    }

    /// The last record of the run of completed records from `start_offset` on.
    pub fn get_last_completed_operation(&self, start_offset: usize) -> (r: Result<
        OperationLog,
        LoggerError,
    >)
        ensures
            ({
                let ls = logs_from(self.log_file@, start_offset as int);
                let n = completed_run(ls);
                match r {
                    Ok(l) => n > 0 && log_view(l) == ls[n - 1],
                    Err(e) => n == 0 && e == LoggerError::CantFindLog(start_offset),
                }
            }),
    {
        get_last_completed_operation(self.log_file.as_slice(), start_offset)
    }

    /// Every record from `start_offset` on, up to the first that does not read.
    pub fn get_all_logs_from_start(&self, start_offset: usize) -> (r: Vec<OperationLog>)
        ensures
            r@.map_values(|l: OperationLog| log_view(l)) == logs_from(self.log_file@, start_offset as int),
    {
        get_all_logs_from_start(self.log_file.as_slice(), start_offset)
    }

    /// Every record of the log.
    pub fn get_all_logs(&self) -> (r: Vec<OperationLog>)
        ensures
            r@.map_values(|l: OperationLog| log_view(l)) == logs_from(self.log_file@, 0),
    {
        get_all_logs(self.log_file.as_slice())
    }
}

/// The logger of a store: its operation log, its message logger, its backup, its name, and
/// the file of its messages.
pub struct Logger<T> {
    pub op_logger: OperationLogger,
    pub gen_logger: GeneralLogger<T>,
    pub restorer: Restorer,
    pub name: String,
    pub general_logger_filename: Option<String>,
}

/// What logging an operation `op` does to a logger: the record is appended under the next
/// number; where the backup has fallen far enough behind, it is moved up to the last
/// completed operation of the run from its last one (giving the new backup settings), and
/// it fails, keeping the record, where there is none.
pub open spec fn logged<T>(
    old_l: Logger<T>,
    new_l: Logger<T>,
    op: OperationView,
    r: Result<(OperationLog, Option<Vec<u8>>), LoggerError>,
) -> bool {
    let id = old_l.op_logger.id;
    let start = old_l.op_logger.log_file@.len();
    let wanted = LogView { completed: false, id: id, start_location: start as usize, try_counter: 0, op: op };
    let file = new_l.op_logger.log_file@;
    let ls = logs_from(file, old_l.restorer.last_op_start as int);
    let n = completed_run(ls);
    &&& new_l.op_logger.id == id + 1
    &&& new_l.gen_logger == old_l.gen_logger
    &&& new_l.name == old_l.name
    &&& new_l.general_logger_filename == old_l.general_logger_filename
    &&& new_l.restorer.name == old_l.restorer.name
    &&& if !(old_l.restorer.last_op_id + RESTORER_RECOMMENDED_DIFF <= id) {
        &&& r matches Ok((l, None)) && log_view(l) == wanted && file == old_l.op_logger.log_file@
            + log_bytes(l)
        &&& new_l.restorer == old_l.restorer
    } else if n == 0 {
        &&& r == Err::<(OperationLog, Option<Vec<u8>>), LoggerError>(
            LoggerError::CantFindLog(old_l.restorer.last_op_start),
        )
        &&& new_l.restorer == old_l.restorer
        &&& exists|l: OperationLog| log_view(l) == wanted && file == old_l.op_logger.log_file@
            + log_bytes(l)
    } else {
        &&& r matches Ok((l, Some(settings))) && log_view(l) == wanted && file
            == old_l.op_logger.log_file@ + log_bytes(l) && settings@ == restorer_settings_bytes(
            ls[n - 1].id,
            ls[n - 1].start_location,
        )
        &&& new_l.restorer.last_op_id == ls[n - 1].id
        &&& new_l.restorer.last_op_start == ls[n - 1].start_location
    }
}

/// A copy of a key.
fn copy_key(key: &String) -> (r: String)
    ensures
        r@ == key@,
{
    key.clone()
}

impl<T: std::io::Write> Logger<T> {
    /// Logs an operation (see [`logged`]).
    pub fn log_operation(&mut self, op: OperationType) -> (r: Result<
        (OperationLog, Option<Vec<u8>>),
        LoggerError,
    >)
        requires
            old(self).op_logger.id < usize::MAX,
            old(self).op_logger.log_file@.len() + op_log_size(op) <= usize::MAX,
            old(self).restorer.last_op_id + RESTORER_RECOMMENDED_DIFF <= usize::MAX,
        ensures
            logged(*old(self), *final(self), op_view(op), r),
    {
        let ghost old_self = *self;
        let ghost opv = op_view(op);
        let op = match self.op_logger.log_operation(op) {
            Ok(l) => l,
            Err(e) => {
                return Err(e);
            },
        };
        if self.restorer.should_update(op.id) {
            match self.restorer.update(self.op_logger.log_file.as_slice()) {
                Ok(settings) => Ok((op, Some(settings))),
                Err(e) => {
                    let ghost wanted = LogView {
                        completed: false,
                        id: old_self.op_logger.id,
                        start_location: old_self.op_logger.log_file@.len() as usize,
                        try_counter: 0,
                        op: opv,
                    };
                    assert(log_view(op) == wanted);
                    assert(self.op_logger.log_file@ == old_self.op_logger.log_file@ + log_bytes(op));
                    assert(exists|l: OperationLog|
                        log_view(l) == wanted && self.op_logger.log_file@
                            == old_self.op_logger.log_file@ + log_bytes(l));
                    Err(e)
                },
            }
        } else {
            Ok((op, None))
        }
    }

    /// Marks a logged operation as completed.
    pub fn mark_operation_as_completed(&mut self, operation: &OperationLog) -> (r: Result<
        (),
        LoggerError,
    >)
        requires
            operation.start_location + 9 <= usize::MAX,
        ensures
            r is Ok,
            final(self).op_logger.log_file@ == patched(
                old(self).op_logger.log_file@,
                operation.start_location + 8,
                seq![1u8],
            ),
            final(self).op_logger.id == old(self).op_logger.id,
            final(self).restorer == old(self).restorer,
    {
        self.op_logger.mark_log_as_completed(operation.start_location)
    }

    /// Logs a read of `key`.
    pub fn log_select_operation(&mut self, key: &String) -> (r: Result<
        (OperationLog, Option<Vec<u8>>),
        LoggerError,
    >)
        requires
            old(self).op_logger.id < usize::MAX,
            old(self).op_logger.log_file@.len() + 26 + encode_utf8(key@).len() <= usize::MAX,
            old(self).restorer.last_op_id + RESTORER_RECOMMENDED_DIFF <= usize::MAX,
        ensures
            logged(*old(self), *final(self), OperationView::Select(key@), r),
    {
        self.log_operation(OperationType::Select(copy_key(key)))
    }

    /// Logs a removal of `key`.
    pub fn log_delete_operation(&mut self, key: &String) -> (r: Result<
        (OperationLog, Option<Vec<u8>>),
        LoggerError,
    >)
        requires
            old(self).op_logger.id < usize::MAX,
            old(self).op_logger.log_file@.len() + 26 + encode_utf8(key@).len() <= usize::MAX,
            old(self).restorer.last_op_id + RESTORER_RECOMMENDED_DIFF <= usize::MAX,
        ensures
            logged(*old(self), *final(self), OperationView::Delete(key@), r),
    {
        self.log_operation(OperationType::Delete(copy_key(key)))
    }

    /// Logs an insertion of `value` under `key`.
    pub fn log_insert_operation(&mut self, key: &String, value: &Vec<u8>) -> (r: Result<
        (OperationLog, Option<Vec<u8>>),
        LoggerError,
    >)
        requires
            old(self).op_logger.id < usize::MAX,
            old(self).op_logger.log_file@.len() + 34 + encode_utf8(key@).len() + value@.len()
                <= usize::MAX,
            old(self).restorer.last_op_id + RESTORER_RECOMMENDED_DIFF <= usize::MAX,
        ensures
            logged(*old(self), *final(self), OperationView::Insert(key@, value@), r),
    {
        self.log_operation(OperationType::Insert(copy_key(key), copy_bytes(value)))
    }

    /// Logs an update of `key` to `value`.
    pub fn log_update_operation(&mut self, key: &String, value: &Vec<u8>) -> (r: Result<
        (OperationLog, Option<Vec<u8>>),
        LoggerError,
    >)
        requires
            old(self).op_logger.id < usize::MAX,
            old(self).op_logger.log_file@.len() + 34 + encode_utf8(key@).len() + value@.len()
                <= usize::MAX,
            old(self).restorer.last_op_id + RESTORER_RECOMMENDED_DIFF <= usize::MAX,
        ensures
            logged(*old(self), *final(self), OperationView::Update(key@, value@), r),
    {
        self.log_operation(OperationType::Update(copy_key(key), copy_bytes(value)))
    }

    /// Writes a message to the message logger (see [`GeneralLogger::log`]).
    pub fn log(&mut self, log_type: LogType, message: String) -> (r: Result<(), LoggerError>)
        requires
            old(self).gen_logger.next_id() < usize::MAX,
        ensures
            final(self).op_logger == old(self).op_logger,
            final(self).restorer == old(self).restorer,
            final(self).name == old(self).name,
            final(self).general_logger_filename == old(self).general_logger_filename,
            final(self).gen_logger.has_output() == old(self).gen_logger.has_output(),
            final(self).gen_logger.sent() == old(self).gen_logger.sent().push(
                GeneralLogger::<T>::line_bytes(old(self).gen_logger.next_id() as int, log_type, message@),
            ),
            r is Ok ==> final(self).gen_logger.next_id() == old(self).gen_logger.next_id() + 1,
            r is Err ==> r == Err::<(), LoggerError>(LoggerError::CanWriteToOutput)
                && final(self).gen_logger.next_id() == old(self).gen_logger.next_id(),
    {
        self.gen_logger.log(log_type, message)
    }

    /// Writes an information message.
    pub fn log_info(&mut self, message: String) -> (r: Result<(), LoggerError>)
        requires
            old(self).gen_logger.next_id() < usize::MAX,
        ensures
            final(self).op_logger == old(self).op_logger,
            final(self).restorer == old(self).restorer,
            final(self).name == old(self).name,
            final(self).general_logger_filename == old(self).general_logger_filename,
            final(self).gen_logger.has_output() == old(self).gen_logger.has_output(),
            final(self).gen_logger.sent() == old(self).gen_logger.sent().push(
                GeneralLogger::<T>::line_bytes(old(self).gen_logger.next_id() as int, LogType::Info, message@),
            ),
            r is Ok ==> final(self).gen_logger.next_id() == old(self).gen_logger.next_id() + 1,
            r is Err ==> r == Err::<(), LoggerError>(LoggerError::CanWriteToOutput)
                && final(self).gen_logger.next_id() == old(self).gen_logger.next_id(),
    {
        self.log(LogType::Info, message)
    }

    /// Writes a warning.
    pub fn log_warning(&mut self, message: String) -> (r: Result<(), LoggerError>)
        requires
            old(self).gen_logger.next_id() < usize::MAX,
        ensures
            final(self).op_logger == old(self).op_logger,
            final(self).restorer == old(self).restorer,
            final(self).name == old(self).name,
            final(self).general_logger_filename == old(self).general_logger_filename,
            final(self).gen_logger.has_output() == old(self).gen_logger.has_output(),
            final(self).gen_logger.sent() == old(self).gen_logger.sent().push(
                GeneralLogger::<T>::line_bytes(old(self).gen_logger.next_id() as int, LogType::Warning, message@),
            ),
            r is Ok ==> final(self).gen_logger.next_id() == old(self).gen_logger.next_id() + 1,
            r is Err ==> r == Err::<(), LoggerError>(LoggerError::CanWriteToOutput)
                && final(self).gen_logger.next_id() == old(self).gen_logger.next_id(),
    {
        self.log(LogType::Warning, message)
    }

    /// Writes an error message.
    pub fn log_error(&mut self, message: String) -> (r: Result<(), LoggerError>)
        requires
            old(self).gen_logger.next_id() < usize::MAX,
        ensures
            final(self).op_logger == old(self).op_logger,
            final(self).restorer == old(self).restorer,
            final(self).name == old(self).name,
            final(self).general_logger_filename == old(self).general_logger_filename,
            final(self).gen_logger.has_output() == old(self).gen_logger.has_output(),
            final(self).gen_logger.sent() == old(self).gen_logger.sent().push(
                GeneralLogger::<T>::line_bytes(old(self).gen_logger.next_id() as int, LogType::Error, message@),
            ),
            r is Ok ==> final(self).gen_logger.next_id() == old(self).gen_logger.next_id() + 1,
            r is Err ==> r == Err::<(), LoggerError>(LoggerError::CanWriteToOutput)
                && final(self).gen_logger.next_id() == old(self).gen_logger.next_id(),
    {
        self.log(LogType::Error, message)
    }

    /// The key of the last insertion logged since the backup's last operation.
    pub fn get_last_inserted_key(&self) -> (r: Option<String>)
        ensures
            match last_insert_key(logs_from(self.op_logger.log_file@, self.restorer.last_op_start as int)) {
                Some(k) => r matches Some(s) && s@ == k,
                None => r is None,
            },
    {
        get_last_inserted_key(self.op_logger.log_file.as_slice(), self.restorer.last_op_start)
    }
}

} // verus!
