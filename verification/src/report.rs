//! What a run over several inputs reports: the lines for its two streams and its
//! exit status. Reading the inputs and writing the streams is left to the caller.

use vstd::prelude::*;
use vstd::string::StringSliceAdditionalSpecFns;
use vstd::utf8::encode_utf8;
use crate::comparator::frames_equal;
use crate::decimal::{decimal, push_decimal};
use crate::hasher::{compute_frame_hash, fingerprint};
use crate::serializer::{push_range, serialized};
use crate::sorter::sort_frame;
use crate::table::{row_fits, TableView, TypedTable};

verus! {

/// The exit status of a run in which nothing went wrong.
pub const STATUS_OK: i32 = 0;

/// The exit status of a run that found the inputs to differ, or was asked to
/// compare fewer than two.
pub const STATUS_MISMATCH: i32 = 1;

/// The exit status of a run in which an input could not be read or hashed, or
/// that was given no input.
pub const STATUS_FAILED: i32 = 2;

/// One input of a run: the path as it is to be printed, and the table that was
/// read from it or the reason why none was.
#[derive(Debug)]
pub struct Input {
    pub path: String,
    pub frame: Result<TypedTable, String>,
}

/// What an input is: its path as UTF-8 bytes, and its table or the reason why
/// there is none.
pub struct InputView {
    pub path: Seq<u8>,
    pub frame: Result<TableView, Seq<u8>>,
}

impl View for Input {
    type V = InputView;

    open spec fn view(&self) -> InputView {
        InputView {
            path: encode_utf8(self.path@),
            frame: match self.frame {
                Ok(table) => Ok(table@),
                Err(message) => Err(encode_utf8(message@)),
            },
        }
    }
}

/// The inputs of a run.
pub open spec fn inputs_view(inputs: Seq<Input>) -> Seq<InputView> {
    Seq::new(inputs.len(), |i: int| inputs[i]@)
}

/// What a run reports: the exit status, the bytes for the standard output and the
/// bytes for the standard error.
#[derive(Debug, PartialEq, Eq)]
pub struct Report {
    pub code: i32,
    pub output: Vec<u8>,
    pub errors: Vec<u8>,
}

/// What a report is.
pub struct ReportView {
    pub code: int,
    pub output: Seq<u8>,
    pub errors: Seq<u8>,
}

impl View for Report {
    type V = ReportView;

    open spec fn view(&self) -> ReportView {
        ReportView { code: self.code as int, output: self.output@, errors: self.errors@ }
    }
}

/// A table that was read, in canonical order, with the path it came from.
pub struct FrameView {
    pub path: Seq<u8>,
    pub table: TableView,
}

/// The report on a request that is turned down before any input is read: one
/// without inputs, or one to compare fewer than two.
pub open spec fn refusal(files: nat, equals: bool) -> Option<ReportView> {
    if files == 0 {
        Some(
            ReportView {
                code: STATUS_FAILED as int,
                output: Seq::empty(),
                errors: "Error: No files provided\n".spec_bytes(),
            },
        )
    } else if equals && files < 2 {
        Some(
            ReportView {
                code: STATUS_MISMATCH as int,
                output: Seq::empty(),
                errors: "Error: --equal requires at least two files.\n".spec_bytes(),
            },
        )
    } else {
        None
    }
}

/// The line that reports an input that could not be read.
pub open spec fn load_error_line(path: Seq<u8>, message: Seq<u8>) -> Seq<u8> {
    "Error loading ".spec_bytes() + path + ": ".spec_bytes() + message + "\n".spec_bytes()
}

/// The line that gives the fingerprint of an input: the digest, two spaces, the path.
#[verifier::opaque]
pub open spec fn hash_line(path: Seq<u8>, table: TableView) -> Seq<u8> {
    encode_utf8(fingerprint(serialized(table))) + "  ".spec_bytes() + path + "\n".spec_bytes()
}

/// The first row of a table that does not fit its schema.
pub open spec fn first_misfit(table: TableView) -> int {
    choose|r: int|
        0 <= r < table.rows.len() && !row_fits(table.rows[r], table.schema) && forall|i: int|
            0 <= i < r ==> row_fits(#[trigger] table.rows[i], table.schema)
}

/// The line that reports an input whose table could not be hashed.
#[verifier::opaque]
pub open spec fn hash_error_line(path: Seq<u8>, table: TableView) -> Seq<u8> {
    "Error hashing ".spec_bytes() + path + ": row ".spec_bytes() + decimal(first_misfit(table) as nat)
        + " does not fit the schema\n".spec_bytes()
}

/// The lines for the inputs that could not be read, in the order of the inputs.
pub open spec fn load_errors(inputs: Seq<InputView>) -> Seq<u8>
    decreases inputs.len(),
{
    if inputs.len() == 0 {
        Seq::empty()
    } else {
        load_errors(inputs.drop_last()) + match inputs.last().frame {
            Ok(_) => Seq::empty(),
            Err(message) => load_error_line(inputs.last().path, message),
        }
    }
}

/// Whether some input could not be read.
pub open spec fn any_failed(inputs: Seq<InputView>) -> bool
    decreases inputs.len(),
{
    inputs.len() > 0 && (any_failed(inputs.drop_last()) || inputs.last().frame is Err)
}

/// The tables that were read, each in canonical order, in the order of the inputs.
pub open spec fn loaded_frames(inputs: Seq<InputView>) -> Seq<FrameView>
    decreases inputs.len(),
{
    if inputs.len() == 0 {
        Seq::empty()
    } else {
        match inputs.last().frame {
            Ok(table) => loaded_frames(inputs.drop_last()).push(
                FrameView { path: inputs.last().path, table: table.sorted() },
            ),
            Err(_) => loaded_frames(inputs.drop_last()),
        }
    }
}

/// Whether every table is the same dataset as the first.
pub open spec fn all_same(frames: Seq<FrameView>) -> bool {
    forall|i: int| 0 <= i < frames.len() ==> frames[0].table.same_dataset((#[trigger] frames[i]).table)
}

/// The fingerprint lines of the tables that are well formed.
pub open spec fn hash_lines(frames: Seq<FrameView>) -> Seq<u8>
    decreases frames.len(),
{
    if frames.len() == 0 {
        Seq::empty()
    } else {
        hash_lines(frames.drop_last()) + if frames.last().table.well_formed() {
            hash_line(frames.last().path, frames.last().table)
        } else {
            Seq::empty()
        }
    }
}

/// The error lines of the tables that are not well formed.
pub open spec fn hash_errors(frames: Seq<FrameView>) -> Seq<u8>
    decreases frames.len(),
{
    if frames.len() == 0 {
        Seq::empty()
    } else {
        hash_errors(frames.drop_last()) + if frames.last().table.well_formed() {
            Seq::empty()
        } else {
            hash_error_line(frames.last().path, frames.last().table)
        }
    }
}

/// Whether some table is not well formed.
pub open spec fn any_malformed(frames: Seq<FrameView>) -> bool
    decreases frames.len(),
{
    frames.len() > 0 && (any_malformed(frames.drop_last()) || !frames.last().table.well_formed())
}

/// What a run that compares its inputs reports. It writes no fingerprint line.
///
/// Each input that could not be read has its error line; a warning follows, nothing
/// is compared, and the status is 2. If all inputs were read, the status is 0 if
/// every table is the same dataset as the first, and nothing is written; else an
/// error line says that the files do not match, and the status is 1.
pub open spec fn comparison_report(inputs: Seq<InputView>) -> ReportView {
    if any_failed(inputs) {
        ReportView {
            code: STATUS_FAILED as int,
            output: Seq::empty(),
            errors: load_errors(inputs) + "Warning: Cannot check for equality due to previous errors.\n".spec_bytes(),
        }
    } else if all_same(loaded_frames(inputs)) {
        ReportView { code: STATUS_OK as int, output: Seq::empty(), errors: Seq::empty() }
    } else {
        ReportView {
            code: STATUS_MISMATCH as int,
            output: Seq::empty(),
            errors: "Error: Files do not match.\n".spec_bytes(),
        }
    }
}

/// What a run that hashes its inputs reports.
///
/// Each input that could not be read has its error line. Each table that was read
/// has its fingerprint line, or an error line if it is not well formed. The status
/// is 2 if an input could not be read or hashed, else 0.
pub open spec fn hashing_report(inputs: Seq<InputView>) -> ReportView {
    let frames = loaded_frames(inputs);
    ReportView {
        code: if any_failed(inputs) || any_malformed(frames) {
            STATUS_FAILED as int
        } else {
            STATUS_OK as int
        },
        output: hash_lines(frames),
        errors: load_errors(inputs) + hash_errors(frames),
    }
}

/// What a run reports: a request without inputs, or to compare fewer than two, is
/// turned down; any other is answered by comparing the inputs or by hashing them.
pub open spec fn expected_report(inputs: Seq<InputView>, equals: bool) -> ReportView {
    if refusal(inputs.len(), equals) is Some {
        refusal(inputs.len(), equals)->0
    } else if equals {
        comparison_report(inputs)
    } else {
        hashing_report(inputs)
    }
}

/// Appends the bytes of a string.
pub fn push_str(out: &mut Vec<u8>, text: &str)
    ensures
        final(out)@ == old(out)@ + text.spec_bytes(),
{
    let bytes = text.as_bytes();
    push_range(out, bytes, 0, bytes.len());
    assert(bytes@.subrange(0, bytes@.len() as int) =~= bytes@);
}

/// Decides whether a request is turned down before any input is read, and with
/// what report: one without inputs, or one to compare fewer than two.
pub fn check_request(files: usize, equals: bool) -> (report: Option<Report>)
    ensures
        match report {
            Some(r) => refusal(files as nat, equals) == Some(r@),
            None => refusal(files as nat, equals) is None,
        },
{
    if files == 0 {
        let mut errors: Vec<u8> = Vec::new();
        push_str(&mut errors, "Error: No files provided\n");
        assert(errors@ =~= "Error: No files provided\n".spec_bytes());
        Some(Report { code: STATUS_FAILED, output: Vec::new(), errors })
    } else if equals && files < 2 {
        let mut errors: Vec<u8> = Vec::new();
        push_str(&mut errors, "Error: --equal requires at least two files.\n");
        assert(errors@ =~= "Error: --equal requires at least two files.\n".spec_bytes());
        Some(Report { code: STATUS_MISMATCH, output: Vec::new(), errors })
    } else {
        None
    }
}

/// A table that was read, in canonical order, with the path it came from.
struct Frame {
    path: String,
    table: TypedTable,
}

impl View for Frame {
    type V = FrameView;

    closed spec fn view(&self) -> FrameView {
        FrameView { path: encode_utf8(self.path@), table: self.table@ }
    }
}

spec fn frames_view(frames: Seq<Frame>) -> Seq<FrameView> {
    Seq::new(frames.len(), |i: int| frames[i]@)
}

/// A row that does not fit, after rows that all fit, is the first misfit.
proof fn lemma_first_misfit(table: TableView, row: int)
    requires
        0 <= row < table.rows.len(),
        !row_fits(table.rows[row], table.schema),
        forall|i: int| 0 <= i < row ==> row_fits(#[trigger] table.rows[i], table.schema),
    ensures
        first_misfit(table) == row,
        !table.well_formed(),
{
    let r = first_misfit(table);
    if r < row {
        assert(row_fits(table.rows[r], table.schema));
    } else if row < r {
        assert(row_fits(table.rows[row], table.schema));
    }
}

/// Writes the line that reports an input that could not be read.
fn write_load_error(errors: &mut Vec<u8>, path: &str, message: &str)
    ensures
        final(errors)@ == old(errors)@ + load_error_line(path.spec_bytes(), message.spec_bytes()),
{
    push_str(errors, "Error loading ");
    push_str(errors, path);
    push_str(errors, ": ");
    push_str(errors, message);
    push_str(errors, "\n");
    assert(errors@ =~= old(errors)@ + load_error_line(path.spec_bytes(), message.spec_bytes()));
}

/// Writes the fingerprint line of a table, or its error line if it is not well
/// formed, and says whether it is not.
fn write_hash(frame: &Frame, output: &mut Vec<u8>, errors: &mut Vec<u8>) -> (malformed: bool)
    ensures
        malformed == !frame@.table.well_formed(),
        final(output)@ == old(output)@ + if malformed {
            Seq::empty()
        } else {
            hash_line(frame@.path, frame@.table)
        },
        final(errors)@ == old(errors)@ + if malformed {
            hash_error_line(frame@.path, frame@.table)
        } else {
            Seq::empty()
        },
{
    reveal(hash_line);
    reveal(hash_error_line);
    match compute_frame_hash(&frame.table) {
        Ok(text) => {
            push_str(output, text.as_str());
            push_str(output, "  ");
            push_str(output, frame.path.as_str());
            push_str(output, "\n");
            assert(output@ =~= old(output)@ + hash_line(frame@.path, frame@.table));
            assert(errors@ =~= old(errors)@ + Seq::<u8>::empty());
            false
        },
        Err(e) => {
            proof {
                lemma_first_misfit(frame@.table, e.row as int);
            }
            push_str(errors, "Error hashing ");
            push_str(errors, frame.path.as_str());
            push_str(errors, ": row ");
            push_decimal(errors, e.row as u64);
            push_str(errors, " does not fit the schema\n");
            assert(errors@ =~= old(errors)@ + hash_error_line(frame@.path, frame@.table));
            assert(output@ =~= old(output)@ + Seq::<u8>::empty());
            true
        },
    }
}

/// Sorts the tables that were read and writes an error line for each input that
/// could not be.
fn collect_frames(inputs: &Vec<Input>, errors: &mut Vec<u8>) -> (result: (Vec<Frame>, bool))
    ensures
        final(errors)@ == old(errors)@ + load_errors(inputs_view(inputs@)),
        frames_view(result.0@) == loaded_frames(inputs_view(inputs@)),
        result.1 == any_failed(inputs_view(inputs@)),
{
    let ghost iv = inputs_view(inputs@);
    let mut frames: Vec<Frame> = Vec::new();
    let mut failed = false;
    let mut i: usize = 0;
    proof {
        assert(iv.take(0) =~= Seq::empty());
        assert(errors@ + Seq::<u8>::empty() =~= errors@);
        assert(frames_view(frames@) =~= Seq::empty());
    }
    while i < inputs.len()
        invariant
            i <= inputs@.len(),
            iv == inputs_view(inputs@),
            errors@ == old(errors)@ + load_errors(iv.take(i as int)),
            frames_view(frames@) == loaded_frames(iv.take(i as int)),
            failed == any_failed(iv.take(i as int)),
        decreases inputs.len() - i,
    {
        let ghost before = frames@;
        let ghost errors_before = errors@;
        proof {
            assert(iv.take(i + 1).drop_last() =~= iv.take(i as int));
        }
        let input = &inputs[i];
        match &input.frame {
            Ok(table) => {
                frames.push(Frame { path: input.path.clone(), table: sort_frame(table) });
                proof {
                    assert(frames_view(frames@) =~= frames_view(before).push(frames@[before.len() as int]@));
                    assert(errors@ =~= old(errors)@ + load_errors(iv.take(i + 1)));
                }
            },
            Err(message) => {
                write_load_error(errors, input.path.as_str(), message.as_str());
                failed = true;
                proof {
                    assert(errors@ =~= old(errors)@ + load_errors(iv.take(i + 1)));
                }
            },
        }
        i = i + 1;
    }
    proof {
        assert(iv.take(i as int) =~= iv);
    }
    (frames, failed)
}

/// Tests whether every table is the same dataset as the first.
fn all_equal(frames: &Vec<Frame>) -> (same: bool)
    ensures
        same == all_same(frames_view(frames@)),
{
    let ghost fv = frames_view(frames@);
    let mut k: usize = 1;
    while k < frames.len()
        invariant
            1 <= k,
            fv == frames_view(frames@),
            forall|i: int| 0 <= i < k && i < fv.len() ==> fv[0].table.same_dataset((#[trigger] fv[i]).table),
        decreases frames.len() - k,
    {
        if !frames_equal(&frames[0].table, &frames[k].table) {
            assert(!fv[0].table.same_dataset(fv[k as int].table));
            return false;
        }
        k = k + 1;
    }
    true
}

/// Writes the fingerprint line of each table, or its error line.
fn write_hashes(frames: &Vec<Frame>, output: &mut Vec<u8>, errors: &mut Vec<u8>) -> (malformed: bool)
    ensures
        final(output)@ == old(output)@ + hash_lines(frames_view(frames@)),
        final(errors)@ == old(errors)@ + hash_errors(frames_view(frames@)),
        malformed == any_malformed(frames_view(frames@)),
{
    let ghost fv = frames_view(frames@);
    let mut malformed = false;
    let mut k: usize = 0;
    proof {
        assert(fv.take(0) =~= Seq::empty());
        assert(errors@ + Seq::<u8>::empty() =~= errors@);
        assert(output@ + Seq::<u8>::empty() =~= output@);
    }
    while k < frames.len()
        invariant
            k <= frames@.len(),
            fv == frames_view(frames@),
            output@ == old(output)@ + hash_lines(fv.take(k as int)),
            errors@ == old(errors)@ + hash_errors(fv.take(k as int)),
            malformed == any_malformed(fv.take(k as int)),
        decreases frames.len() - k,
    {
        let ghost output_before = output@;
        let ghost errors_before = errors@;
        proof {
            assert(fv.take(k + 1).drop_last() =~= fv.take(k as int));
        }
        if write_hash(&frames[k], output, errors) {
            malformed = true;
        }
        proof {
            assert(output@ =~= old(output)@ + hash_lines(fv.take(k + 1)));
            assert(errors@ =~= old(errors)@ + hash_errors(fv.take(k + 1)));
        }
        k = k + 1;
    }
    proof {
        assert(fv.take(k as int) =~= fv);
    }
    malformed
}

/// Where every input was read, there is no error line for an input.
proof fn lemma_no_load_errors(inputs: Seq<InputView>)
    requires
        !any_failed(inputs),
    ensures
        load_errors(inputs) == Seq::<u8>::empty(),
    decreases inputs.len(),
{
    if inputs.len() > 0 {
        lemma_no_load_errors(inputs.drop_last());
        assert(load_errors(inputs) =~= Seq::<u8>::empty());
    }
}

/// Reports on a run over the inputs as they were read: `expected_report` says
/// what stands in the report. With `equals` set the inputs are compared and no
/// fingerprint is written; without it each table that was read is hashed.
pub fn run(inputs: &Vec<Input>, equals: bool) -> (report: Report)
    ensures
        report@ == expected_report(inputs_view(inputs@), equals),
{
    match check_request(inputs.len(), equals) {
        Some(report) => {
            return report;
        },
        None => {},
    }
    let mut errors: Vec<u8> = Vec::new();
    let (frames, failed) = collect_frames(inputs, &mut errors);
    if equals {
        if failed {
            push_str(&mut errors, "Warning: Cannot check for equality due to previous errors.\n");
            Report { code: STATUS_FAILED, output: Vec::new(), errors }
        } else if all_equal(&frames) {
            Report { code: STATUS_OK, output: Vec::new(), errors: Vec::new() }
        } else {
            proof {
                lemma_no_load_errors(inputs_view(inputs@));
            }
            push_str(&mut errors, "Error: Files do not match.\n");
            let report = Report { code: STATUS_MISMATCH, output: Vec::new(), errors };
            assert(report@.errors =~= "Error: Files do not match.\n".spec_bytes());
            report
        }
    } else {
        let mut output: Vec<u8> = Vec::new();
        let malformed = write_hashes(&frames, &mut output, &mut errors);
        let code = if failed || malformed {
            STATUS_FAILED
        } else {
            STATUS_OK
        };
        let report = Report { code, output, errors };
        assert(report@.output =~= hash_lines(loaded_frames(inputs_view(inputs@))));
        report
    }
}

} // verus!
