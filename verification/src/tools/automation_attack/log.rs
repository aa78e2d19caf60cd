//! The tool's log: one row of tab-separated cells for each frame.

use crate::text;
use crate::tools::automation_attack::session;
use vstd::prelude::*;
use vstd::string::*;

verus! {

/// What is logged of a frame. Numbers with decimals are given as text.
pub struct LogEntry {
    pub frame: u64,
    pub time: String,
    /// The orange and the white pixels of the frame.
    pub orange: usize,
    pub white: usize,
    /// The pictures that are prompts, and all pictures.
    pub prompts: usize,
    pub candidates: usize,
    /// The hash of the prompt on the screen.
    pub hash: Option<u64>,
    /// The letters that are known.
    pub templates: String,
    /// What was typed in this frame.
    pub typed: String,
    pub status: String,
    pub loop_ms: String,
    pub fps: String,
}

/// The names of the columns.
pub open spec fn columns() -> Seq<Seq<char>> {
    seq![
        "frame"@,
        "time"@,
        "orange"@,
        "white"@,
        "likely_candidates"@,
        "raw_candidates"@,
        "hash"@,
        "templates"@,
        "typed"@,
        "status"@,
        "loop_ms"@,
        "fps"@,
    ]
}

/// The head of the log: the names of the columns, with tabs between them.
pub fn header() -> (line: String)
    ensures
        line@ == text::joined(columns(), '\t'),
{
    let mut names: Vec<String> = Vec::new();
    names.push(text::copy("frame"));
    names.push(text::copy("time"));
    names.push(text::copy("orange"));
    names.push(text::copy("white"));
    names.push(text::copy("likely_candidates"));
    names.push(text::copy("raw_candidates"));
    names.push(text::copy("hash"));
    names.push(text::copy("templates"));
    names.push(text::copy("typed"));
    names.push(text::copy("status"));
    names.push(text::copy("loop_ms"));
    names.push(text::copy("fps"));
    assert(text::values(names@) =~= columns());
    text::join(&names, '\t')
}

/// The hash of a prompt in sixteen hexadecimal digits, or a dash where there is none.
pub open spec fn hash_cell(hash: Option<u64>) -> Seq<char> {
    match hash {
        Some(h) => session::hex(h as int, 16),
        None => "-"@,
    }
}

/// The cells of a row, in the order of the columns. A status may hold any text; its tabs become spaces.
pub open spec fn cells(e: LogEntry) -> Seq<Seq<char>> {
    seq![
        text::digits(e.frame as nat),
        e.time@,
        text::digits(e.orange as nat),
        text::digits(e.white as nat),
        text::digits(e.prompts as nat),
        text::digits(e.candidates as nat),
        hash_cell(e.hash),
        e.templates@,
        e.typed@,
        text::untabbed(e.status@),
        e.loop_ms@,
        e.fps@,
    ]
}

/// Every row has one cell for each column.
pub proof fn lemma_row_width(e: LogEntry)
    ensures
        cells(e).len() == columns().len(),
{
}

fn hash_text(hash: Option<u64>) -> (out: String)
    ensures
        out@ == hash_cell(hash),
{
    match hash {
        Some(h) => {
            let out = session::with_hash("", h);
            proof {
                reveal_strlit("");
                assert(out@ =~= session::hex(h as int, 16));
            }
            out
        },
        None => text::copy("-"),
    }
}

/// The row of a frame: its cells, with tabs between them.
pub fn log_row(e: &LogEntry) -> (line: String)
    ensures
        line@ == text::joined(cells(*e), '\t'),
{
    let mut row: Vec<String> = Vec::new();
    row.push(text::nat_text(e.frame));
    row.push(text::copy(e.time.as_str()));
    row.push(text::nat_text(e.orange as u64));
    row.push(text::nat_text(e.white as u64));
    row.push(text::nat_text(e.prompts as u64));
    row.push(text::nat_text(e.candidates as u64));
    row.push(hash_text(e.hash));
    row.push(text::copy(e.templates.as_str()));
    row.push(text::copy(e.typed.as_str()));
    row.push(text::replace_tabs(e.status.as_str()));
    row.push(text::copy(e.loop_ms.as_str()));
    row.push(text::copy(e.fps.as_str()));
    assert(text::values(row@) =~= cells(*e));
    text::join(&row, '\t')
}

/// The cells of a row stand under the names of what they say, and no cell of the status holds a tab.
pub proof fn lemma_cells_under_names(e: LogEntry)
    ensures
        ({
            let names = columns();
            let row = cells(e);
            &&& names[0] == "frame"@ && row[0] == text::digits(e.frame as nat)
            &&& names[1] == "time"@ && row[1] == e.time@
            &&& names[2] == "orange"@ && row[2] == text::digits(e.orange as nat)
            &&& names[3] == "white"@ && row[3] == text::digits(e.white as nat)
            &&& names[4] == "likely_candidates"@ && row[4] == text::digits(e.prompts as nat)
            &&& names[5] == "raw_candidates"@ && row[5] == text::digits(e.candidates as nat)
            &&& names[6] == "hash"@ && (e.hash is None ==> row[6] == "-"@) && (e.hash matches Some(h) ==> row[6] == session::hex(
                h as int,
                16,
            ))
            &&& names[7] == "templates"@ && row[7] == e.templates@
            &&& names[8] == "typed"@ && row[8] == e.typed@
            &&& names[9] == "status"@ && row[9].len() == e.status@.len()
            &&& forall|i: int|
                0 <= i < row[9].len() ==> #[trigger] row[9][i] != '\t' && (e.status@[i] != '\t' ==> row[9][i] == e.status@[i])
            &&& names[10] == "loop_ms"@ && row[10] == e.loop_ms@
            &&& names[11] == "fps"@ && row[11] == e.fps@
        }),
{
}

} // verus!
