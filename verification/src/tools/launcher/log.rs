//! The log of a launch: tab-separated rows in a file beside the tool's own log.

use crate::platform::win32::Rect;
use crate::text;
use crate::tools::launcher::detect;
use crate::tools::launcher::detect::{Detector, PlayClick};
use crate::tools::launcher::geometry;
use vstd::prelude::*;
use vstd::string::*;

verus! {

/// Where the last name of a path starts: behind the last slash.
pub open spec fn name_start(path: Seq<char>) -> int
    decreases path.len(),
{
    if path.len() == 0 || path.last() == '/' {
        path.len() as int
    } else {
        name_start(path.drop_last())
    }
}

/// The last name of a path.
pub open spec fn last_name(path: Seq<char>) -> Seq<char> {
    path.skip(name_start(path))
}

/// Where the extension of a file name starts: at its last dot or, where it has none but a leading
/// one, at its end.
pub open spec fn stem_end(name: Seq<char>) -> int {
    if last_dot(name) > 0 {
        last_dot(name)
    } else {
        name.len() as int
    }
}

/// The position of the last dot, or -1 where there is none.
pub open spec fn last_dot(name: Seq<char>) -> int
    decreases name.len(),
{
    if name.len() == 0 {
        -1
    } else if name.last() == '.' {
        name.len() - 1
    } else {
        last_dot(name.drop_last())
    }
}

/// A character that separates names on some system: a slash, a backslash or the colon of a drive.
pub open spec fn separates(c: char) -> bool {
    c == '/' || c == '\\' || c == ':'
}

/// Where the last name of a path starts where backslashes and drives separate names too.
pub open spec fn inner_start(path: Seq<char>) -> int
    decreases path.len(),
{
    if path.len() == 0 || separates(path.last()) {
        path.len() as int
    } else {
        inner_start(path.drop_last())
    }
}

/// The last name of a path where backslashes and drives separate names too.
pub open spec fn inner_name(path: Seq<char>) -> Seq<char> {
    path.skip(inner_start(path))
}

/// A path whose extension is at the same place on every system, whether or not backslashes and drives
/// separate names there. It does not start like the name of a network share or a device, and its last
/// name is that of a file.
pub open spec fn portable(path: Seq<char>) -> bool {
    &&& !(path.len() >= 2 && (path[0] == '/' || path[0] == '\\') && (path[1] == '/' || path[1] == '\\'))
    &&& inner_name(path).len() > 0
    &&& inner_name(path) != seq!['.']
    &&& inner_name(path) != seq!['.', '.']
    &&& name_start(path) + stem_end(last_name(path)) == inner_start(path) + stem_end(inner_name(path))
}

proof fn lemma_inner_start(path: Seq<char>)
    ensures
        0 <= name_start(path) <= inner_start(path) <= path.len(),
    decreases path.len(),
{
    if path.len() > 0 {
        lemma_inner_start(path.drop_last());
        lemma_name_start(path.drop_last());
    }
}

proof fn lemma_name_start(path: Seq<char>)
    ensures
        0 <= name_start(path) <= path.len(),
    decreases path.len(),
{
    if path.len() > 0 {
        lemma_name_start(path.drop_last());
    }
}

proof fn lemma_last_dot(name: Seq<char>, at: int)
    requires
        0 <= at < name.len(),
        name[at] == '.',
        forall|i: int| at < i < name.len() ==> name[i] != '.',
    ensures
        last_dot(name) == at,
    decreases name.len(),
{
    if name.last() != '.' {
        lemma_last_dot(name.drop_last(), at);
    }
}

/// Where a path does not start with two separators, its last dot stands behind the last slash, backslash and
/// colon with at least one character between, and its last name is not `..`, the path is portable and
/// everything from that dot on is replaced. Drives and backslashes may occur.
pub proof fn lemma_dotted_portable(path: Seq<char>, dot: int)
    requires
        !(path.len() >= 2 && (path[0] == '/' || path[0] == '\\') && (path[1] == '/' || path[1] == '\\')),
        inner_start(path) < dot < path.len(),
        path[dot] == '.',
        forall|i: int| dot < i < path.len() ==> path[i] != '.',
        inner_name(path) != seq!['.', '.'],
    ensures
        portable(path),
        forall|extension: Seq<char>| with_extension(path, extension) == path.take(dot) + seq!['.'] + extension,
{
    lemma_inner_start(path);
    let a = name_start(path);
    let b = inner_start(path);
    lemma_last_dot(path.skip(a), dot - a);
    lemma_last_dot(path.skip(b), dot - b);
    assert(inner_name(path).len() >= 2);
}

/// A path without backslashes and colons is read in the same way everywhere: it is portable where it names a
/// file and does not start with two slashes.
pub proof fn lemma_slashed_portable(path: Seq<char>)
    requires
        !path.contains('\\'),
        !path.contains(':'),
        !(path.len() >= 2 && path[0] == '/' && path[1] == '/'),
        last_name(path).len() > 0,
        last_name(path) != seq!['.'],
        last_name(path) != seq!['.', '.'],
    ensures
        portable(path),
{
    lemma_same_start(path);
    if path.len() >= 2 {
        assert(path.contains(path[0]) && path.contains(path[1]));
    }
}

proof fn lemma_same_start(path: Seq<char>)
    requires
        !path.contains('\\'),
        !path.contains(':'),
    ensures
        inner_start(path) == name_start(path),
    decreases path.len(),
{
    if path.len() > 0 {
        assert(path.contains(path.last()));
        let t = path.drop_last();
        assert forall|c: char| t.contains(c) implies path.contains(c) by {
            let i = t.index_of(c);
            assert(path[i] == c);
        }
        lemma_same_start(t);
    }
}

/// A path whose file has another extension.
pub open spec fn with_extension(path: Seq<char>, extension: Seq<char>) -> Seq<char> {
    path.take(name_start(path) + stem_end(last_name(path))) + seq!['.'] + extension
}

/// `PathBuf::set_extension` on a path given as text, the result again as text.
///
/// Claimed: for a portable path and a non-empty extension, the extension of the last name is
/// replaced, or added where it has none, and all before it stays as it is. Of other paths, on which
/// the systems differ or which name no file, nothing is claimed.
#[verifier::external_body]
fn set_extension(path: &str, extension: &str) -> (out: String)
    requires
        !extension@.contains('/'),
        !extension@.contains('\\'),
    ensures
        portable(path@) && extension@.len() > 0 ==> out@ == with_extension(path@, extension@),
{
    let mut sidecar = std::path::Path::new(path).to_path_buf();
    sidecar.set_extension(extension);
    sidecar.to_string_lossy().into_owned()
}

/// The file that the launch is logged to, beside the tool's own log: the same name with the extension
/// `launch.tsv`. What it is for a path that is not portable is up to the system.
pub fn launch_log_path(path: &str) -> (out: String)
    ensures
        portable(path@) ==> out@ == with_extension(path@, "launch.tsv"@),
{
    proof {
        reveal_strlit("launch.tsv");
    }
    set_extension(path, "launch.tsv")
}

/// The names of the columns.
pub open spec fn columns() -> Seq<Seq<char>> {
    seq![
        "seq"@,
        "time_s"@,
        "phase"@,
        "event"@,
        "detector"@,
        "capture_rect"@,
        "local_rect"@,
        "screen_rect"@,
        "click_local_x"@,
        "click_local_y"@,
        "click_screen_x"@,
        "click_screen_y"@,
        "method"@,
        "details"@,
    ]
}

/// The head of the log: the names of the columns, with tabs between them.
pub fn header() -> (line: String)
    ensures
        line@ == text::joined(columns(), '\t'),
{
    let mut names: Vec<String> = Vec::new();
    names.push(text::copy("seq"));
    names.push(text::copy("time_s"));
    names.push(text::copy("phase"));
    names.push(text::copy("event"));
    names.push(text::copy("detector"));
    names.push(text::copy("capture_rect"));
    names.push(text::copy("local_rect"));
    names.push(text::copy("screen_rect"));
    names.push(text::copy("click_local_x"));
    names.push(text::copy("click_local_y"));
    names.push(text::copy("click_screen_x"));
    names.push(text::copy("click_screen_y"));
    names.push(text::copy("method"));
    names.push(text::copy("details"));
    assert(text::values(names@) =~= columns());
    text::join(&names, '\t')
}

/// What is logged of one event.
pub struct LaunchEvent {
    pub phase: String,
    pub event: String,
    /// Seconds since the phase began, with six decimals.
    pub elapsed: String,
    pub detector: Option<Detector>,
    pub capture_rect: Option<Rect>,
    pub local_rect: Option<Rect>,
    pub click: Option<PlayClick>,
    pub details: String,
}

/// The text of a rectangle, or none.
pub open spec fn rect_cell(rect: Option<Rect>) -> Seq<char> {
    match rect {
        Some(r) => geometry::rect_text(r),
        None => Seq::empty(),
    }
}

/// The rectangle on the screen, where both the captured area and the rectangle in it are known.
pub open spec fn on_screen(capture: Option<Rect>, local: Option<Rect>) -> Option<Rect> {
    match (capture, local) {
        (Some(c), Some(l)) => Some(geometry::moved(l, c.left as int, c.top as int)),
        _ => None,
    }
}

/// The rectangle on the screen is one of 32-bit numbers.
pub open spec fn loggable(e: LaunchEvent) -> bool {
    match (e.capture_rect, e.local_rect) {
        (Some(c), Some(l)) => geometry::movable(l, c.left as int, c.top as int),
        _ => true,
    }
}

/// The cells of a row. Tabs in the details become spaces.
pub open spec fn cells(seq_no: nat, e: LaunchEvent) -> Seq<Seq<char>> {
    let empty = Seq::<char>::empty();
    seq![
        text::digits(seq_no),
        e.elapsed@,
        e.phase@,
        e.event@,
        match e.detector {
            Some(d) => detect::detector_name(d),
            None => empty,
        },
        rect_cell(e.capture_rect),
        rect_cell(e.local_rect),
        rect_cell(on_screen(e.capture_rect, e.local_rect)),
        match e.click {
            Some(c) => text::decimal(c.x as int),
            None => empty,
        },
        match e.click {
            Some(c) => text::decimal(c.y as int),
            None => empty,
        },
        match e.click {
            Some(c) => text::decimal(c.screen_x as int),
            None => empty,
        },
        match e.click {
            Some(c) => text::decimal(c.screen_y as int),
            None => empty,
        },
        match e.click {
            Some(c) => detect::method_name(c.method),
            None => empty,
        },
        text::untabbed(e.details@),
    ]
}

/// Every row has one cell for each column.
pub proof fn lemma_row_width(seq_no: nat, e: LaunchEvent)
    ensures
        cells(seq_no, e).len() == columns().len(),
{
}

fn rect_or_empty(rect: Option<Rect>) -> (out: String)
    ensures
        out@ == rect_cell(rect),
{
    match rect {
        Some(r) => geometry::format_rect(r),
        None => {
            let out = String::new();
            assert(out@ =~= Seq::empty());
            out
        },
    }
}

fn empty_text() -> (out: String)
    ensures
        out@ == Seq::<char>::empty(),
{
    let out = String::new();
    assert(out@ =~= Seq::empty());
    out
}

/// Numbers the rows of a launch log. Where no log is kept, there are no rows.
#[derive(Clone, Copy, Debug, PartialEq, Eq, Structural)]
pub struct LaunchLogger {
    pub enabled: bool,
    pub seq: u64,
}

impl LaunchLogger {
    /// A log is kept exactly where its path is not empty.
    pub fn open(path: &str) -> (log: Self)
        ensures
            log == (LaunchLogger { enabled: path@.len() > 0, seq: 0 }),
    {
        let chars = text::chars_of(path);
        LaunchLogger { enabled: chars.len() > 0, seq: 0 }
    }

    /// The row of an event, where a log is kept. Rows are numbered from one.
    pub fn row(&mut self, e: &LaunchEvent) -> (line: Option<String>)
        requires
            loggable(*e),
            old(self).seq < u64::MAX,
        ensures
            final(self).enabled == old(self).enabled,
            line is Some <==> old(self).enabled,
            line is None ==> final(self).seq == old(self).seq,
            line matches Some(l) ==> final(self).seq == old(self).seq + 1 && l@ == text::joined(
                cells(final(self).seq as nat, *e),
                '\t',
            ),
    {
        if !self.enabled {
            return None;
        }
        self.seq = self.seq + 1;
        let mut row: Vec<String> = Vec::new();
        row.push(text::nat_text(self.seq));
        row.push(text::copy(e.elapsed.as_str()));
        row.push(text::copy(e.phase.as_str()));
        row.push(text::copy(e.event.as_str()));
        match e.detector {
            Some(d) => {
                row.push(text::copy(d.name()));
            },
            None => {
                row.push(empty_text());
            },
        }
        row.push(rect_or_empty(e.capture_rect));
        row.push(rect_or_empty(e.local_rect));
        match (e.capture_rect, e.local_rect) {
            (Some(c), Some(l)) => {
                row.push(geometry::format_rect(geometry::absolute_rect(c, l)));
            },
            _ => {
                row.push(empty_text());
            },
        }
        match e.click {
            Some(c) => {
                row.push(text::int_text(c.x));
                row.push(text::int_text(c.y));
                row.push(text::int_text(c.screen_x));
                row.push(text::int_text(c.screen_y));
                row.push(text::copy(c.method.name()));
            },
            None => {
                row.push(empty_text());
                row.push(empty_text());
                row.push(empty_text());
                row.push(empty_text());
                row.push(empty_text());
            },
        }
        row.push(text::replace_tabs(e.details.as_str()));
        assert(text::values(row@) =~= cells(self.seq as nat, *e));
        Some(text::join(&row, '\t'))
    }
}

/// The cells of a row stand under the names of what they say; the rectangle on the screen is the local one moved by the
/// corner of the captured area, and the details hold no tab.
pub proof fn lemma_cells_under_names(seq_no: nat, e: LaunchEvent)
    requires
        loggable(e),
    ensures
        ({
            let names = columns();
            let row = cells(seq_no, e);
            let none = Seq::<char>::empty();
            &&& names[0] == "seq"@ && row[0] == text::digits(seq_no)
            &&& names[1] == "time_s"@ && row[1] == e.elapsed@
            &&& names[2] == "phase"@ && row[2] == e.phase@
            &&& names[3] == "event"@ && row[3] == e.event@
            &&& names[5] == "capture_rect"@ && (e.capture_rect matches Some(r) ==> row[5] == geometry::rect_text(r))
            &&& names[6] == "local_rect"@ && (e.local_rect matches Some(r) ==> row[6] == geometry::rect_text(r))
            &&& names[7] == "screen_rect"@
            &&& e.capture_rect is None || e.local_rect is None ==> row[7] == none
            &&& forall|r: Rect|
                e.capture_rect is Some && e.local_rect is Some && r.left - e.local_rect->0.left == e.capture_rect->0.left && r.top
                    - e.local_rect->0.top == e.capture_rect->0.top && r.width == e.local_rect->0.width && r.height
                    == e.local_rect->0.height ==> row[7] == #[trigger] geometry::rect_text(r)
            &&& names[8] == "click_local_x"@ && names[9] == "click_local_y"@
            &&& names[10] == "click_screen_x"@ && names[11] == "click_screen_y"@
            &&& e.click matches Some(c) ==> {
                &&& row[8] == text::decimal(c.x as int) && row[9] == text::decimal(c.y as int)
                &&& row[10] == text::decimal(c.screen_x as int) && row[11] == text::decimal(c.screen_y as int)
            }
            &&& e.click is None ==> row[8] == none && row[9] == none && row[10] == none && row[11] == none && row[12] == none
            &&& names[13] == "details"@ && row[13].len() == e.details@.len()
            &&& forall|i: int| 0 <= i < row[13].len() ==> #[trigger] row[13][i] != '\t'
        }),
{
    let row = cells(seq_no, e);
    assert forall|r: Rect|
        e.capture_rect is Some && e.local_rect is Some && r.left - e.local_rect->0.left == e.capture_rect->0.left && r.top
            - e.local_rect->0.top == e.capture_rect->0.top && r.width == e.local_rect->0.width && r.height == e.local_rect->0.height
        implies row[7] == #[trigger] geometry::rect_text(r) by {
        assert(r == geometry::moved(e.local_rect->0, e.capture_rect->0.left as int, e.capture_rect->0.top as int));
    }
}

proof fn lemma_no_dot(name: Seq<char>)
    requires
        forall|i: int| 0 < i < name.len() ==> name[i] != '.',
    ensures
        last_dot(name) <= 0,
    decreases name.len(),
{
    reveal_with_fuel(last_dot, 2);
    if name.len() > 1 {
        lemma_no_dot(name.drop_last());
        assert(name.last() == name[name.len() - 1]);
    }
}

/// A file without an extension gets one; a dot at the start of its name is none.
pub proof fn lemma_extension_added(path: Seq<char>, start: int, extension: Seq<char>)
    requires
        0 <= start < path.len(),
        start == 0 || path[start - 1] == '/',
        forall|i: int| start <= i < path.len() ==> path[i] != '/',
        forall|i: int| start < i < path.len() ==> path[i] != '.',
    ensures
        with_extension(path, extension) == path + seq!['.'] + extension,
{
    lemma_name_starts_at(path, start);
    let name = last_name(path);
    assert forall|i: int| 0 < i < name.len() implies name[i] != '.' by {
        assert(name[i] == path[start + i]);
    }
    lemma_no_dot(name);
    assert(path.take(path.len() as int) =~= path);
}

proof fn lemma_name_starts_at(path: Seq<char>, start: int)
    requires
        0 <= start <= path.len(),
        start == 0 || path[start - 1] == '/',
        forall|i: int| start <= i < path.len() ==> path[i] != '/',
    ensures
        name_start(path) == start,
    decreases path.len(),
{
    if path.len() > start {
        assert(path.last() != '/');
        lemma_name_starts_at(path.drop_last(), start);
    }
}

} // verus!
