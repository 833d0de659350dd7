//! Driving prefix extraction over an ordered list of sources: per-source
//! headers, failure isolation, and per-source outcomes.

use vstd::prelude::*;
use vstd::string::StringExecFns;
use crate::extract::{
    byte_extraction, count_total_lines, extract_bytes, extract_lines, line_extraction,
    total_lines,
};

verus! {

/// When a `==> name <==` banner precedes a source's content: always, never,
/// or only when more than one source was requested.
#[derive(Debug)]
pub enum HeaderChoice {
    Always,
    Never,
    Multiple,
}

/// A validated run configuration: the requested sources, the line count,
/// the byte count that overrides it when present, and the header policy.
#[derive(Debug)]
pub struct Config {
    pub files: Vec<String>,
    pub lines: i128,
    pub bytes: Option<i128>,
    pub print_header: HeaderChoice,
}

/// An input source as handed to the engine: either its bytes, with whether
/// its size may be measured up front, or the reason it could not be read.
/// A source that cannot be measured falls back to the degenerate totals of
/// zero bytes and one line.
pub enum SourceData {
    Loaded { data: Vec<u8>, sizeable: bool },
    Unavailable { message: String },
}

/// Per-source result of a run: the banner and bytes emitted for the source,
/// or the reason it failed.  A failure never aborts the sources after it.
pub enum RunOutcome {
    Emitted { header: Option<String>, data: Vec<u8> },
    Failed { message: String },
}

/// The mathematical value of a [`RunOutcome`].
pub enum OutcomeModel {
    Emitted { header: Option<Seq<char>>, data: Seq<u8> },
    Failed { message: Seq<char> },
}

impl View for RunOutcome {
    type V = OutcomeModel;

    open spec fn view(&self) -> OutcomeModel {
        match self {
            RunOutcome::Emitted { header, data } => OutcomeModel::Emitted {
                header: match header {
                    Some(h) => Some(h@),
                    None => None,
                },
                data: data@,
            },
            RunOutcome::Failed { message } => OutcomeModel::Failed { message: message@ },
        }
    }
}

/// Whether a banner is owed, given the policy and how many sources the run
/// was asked for — the requested count, not the count of readable sources.
pub open spec fn spec_show_header(p: HeaderChoice, num_sources: nat) -> bool {
    match p {
        HeaderChoice::Always => true,
        HeaderChoice::Never => false,
        HeaderChoice::Multiple => num_sources > 1,
    }
}

/// The banner preceding source `name`: `==> name <==` on a line of its own.
/// `later` says whether some banner was already emitted in this run; every
/// banner after the first is preceded by one blank line, the first by none —
/// whichever requested source it belongs to.
pub open spec fn header_chars(later: bool, name: Seq<char>) -> Seq<char> {
    (if later {
        "\n"@
    } else {
        Seq::<char>::empty()
    }) + "==> "@ + name + " <==\n"@
}

/// The line total extraction measures for a source: its real line count
/// when it is sizeable, else the degenerate sentinel of one line.
pub open spec fn spec_line_total(data: Seq<u8>, sizeable: bool) -> nat {
    if sizeable {
        total_lines(data)
    } else {
        1
    }
}

/// The byte size extraction measures for a source: its real size when it is
/// sizeable, else the degenerate sentinel of zero bytes.
pub open spec fn spec_byte_total(data: Seq<u8>, sizeable: bool) -> nat {
    if sizeable {
        data.len()
    } else {
        0
    }
}

/// The bytes extraction emits for a loaded source under `c`: byte-mode when
/// a byte count is present, else line-mode with the configured line count.
pub open spec fn spec_extraction(c: Config, data: Seq<u8>, sizeable: bool) -> Seq<u8> {
    match c.bytes {
        Some(m) => byte_extraction(data, m as int, spec_byte_total(data, sizeable)),
        None => line_extraction(data, c.lines as int, spec_line_total(data, sizeable)),
    }
}

/// Whether any source before `i` emits content — and so, when banners are
/// shown at all, whether a banner already stands in the output before `i`'s.
/// A source that failed to open emits nothing and does not count.
pub open spec fn spec_emitted_before(sources: Seq<SourceData>, i: int) -> bool {
    exists|j: int| 0 <= j < i && sources[j] is Loaded
}

/// The outcome owed to source `i` of a run over `sources` under `c`.
pub open spec fn expected_outcome(c: Config, sources: Seq<SourceData>, i: int) -> OutcomeModel {
    match sources[i] {
        SourceData::Unavailable { message } => OutcomeModel::Failed { message: message@ },
        SourceData::Loaded { data, sizeable } => OutcomeModel::Emitted {
            header: if spec_show_header(c.print_header, c.files@.len()) {
                Some(header_chars(spec_emitted_before(sources, i), c.files@[i]@))
            } else {
                None
            },
            data: spec_extraction(c, data@, sizeable),
        },
    }
}

/// Builds the banner for one source.
fn build_header(later: bool, name: &String) -> (h: String)
    ensures
        h@ == header_chars(later, name@),
{
    let mut h = String::new();
    if later {
        h.append("\n");
    }
    h.append("==> ");
    h.append(name.as_str());
    h.append(" <==\n");
    proof {
        assert(h@ =~= header_chars(later, name@));
    }
    h
}

/// Drives extraction once per requested source, in order: measures each
/// loaded source, emits its banner per the header policy — with a blank
/// separator line before every banner but the first one actually emitted —
/// and its prefix per the count specification, and isolates per-source
/// failures.
pub fn run_core(config: &Config, sources: &Vec<SourceData>) -> (outcomes: Vec<RunOutcome>)
    requires
        sources@.len() == config.files@.len(),
    ensures
        outcomes@.len() == sources@.len(),
        forall|i: int|
            0 <= i < sources@.len() ==> outcomes@[i]@ == expected_outcome(*config, sources@, i),
{
    let num_files = config.files.len();
    let show = match config.print_header {
        HeaderChoice::Always => true,
        HeaderChoice::Never => false,
        HeaderChoice::Multiple => num_files > 1,
    };
    let mut outcomes: Vec<RunOutcome> = Vec::new();
    let mut emitted_before = false;
    let mut i: usize = 0;
    while i < sources.len()
        invariant
            i <= sources@.len(),
            sources@.len() == config.files@.len(),
            show == spec_show_header(config.print_header, config.files@.len()),
            emitted_before == spec_emitted_before(sources@, i as int),
            outcomes@.len() == i,
            forall|j: int|
                0 <= j < i ==> outcomes@[j]@ == expected_outcome(*config, sources@, j),
        decreases sources@.len() - i,
    {
        let src = &sources[i];
        match src {
            SourceData::Unavailable { message } => {
                outcomes.push(RunOutcome::Failed { message: message.clone() });
                proof {
                    assert(forall|j: int|
                        0 <= j < i + 1 && sources@[j] is Loaded ==> 0 <= j < i
                            && sources@[j] is Loaded);
                }
            },
            SourceData::Loaded { data, sizeable } => {
                let header: Option<String> = if show {
                    Some(build_header(emitted_before, &config.files[i]))
                } else {
                    None
                };
                let out: Vec<u8> = match config.bytes {
                    Some(m) => {
                        let size: usize = if *sizeable {
                            data.len()
                        } else {
                            0
                        };
                        extract_bytes(data, m, size)
                    },
                    None => {
                        let tot: usize = if *sizeable {
                            count_total_lines(data)
                        } else {
                            1
                        };
                        extract_lines(data, config.lines, tot)
                    },
                };
                outcomes.push(RunOutcome::Emitted { header, data: out });
                emitted_before = true;
                proof {
                    assert(sources@[i as int] is Loaded);
                    assert(spec_emitted_before(sources@, i + 1));
                }
            },
        }
        i = i + 1;
    }
    outcomes
}

/// Whether every source of a run was emitted — the whole-run success the
/// caller turns into its exit status.
pub fn all_succeeded(outcomes: &Vec<RunOutcome>) -> (ok: bool)
    ensures
        ok <==> forall|i: int| 0 <= i < outcomes@.len() ==> !(outcomes@[i] is Failed),
{
    let mut i: usize = 0;
    while i < outcomes.len()
        invariant
            i <= outcomes@.len(),
            forall|j: int| 0 <= j < i ==> !(outcomes@[j] is Failed),
        decreases outcomes@.len() - i,
    {
        match &outcomes[i] {
            RunOutcome::Failed { .. } => {
                return false;
            },
            _ => {},
        }
        i = i + 1;
    }
    true
}

impl RunOutcome {
    /// The number of bytes of content this outcome emitted.
    pub fn bytes_emitted(&self) -> (n: usize)
        ensures
            (self@ matches OutcomeModel::Emitted { header, data } ==> n == data.len()),
            (self@ matches OutcomeModel::Failed { message } ==> n == 0),
    {
        match self {
            RunOutcome::Emitted { data, .. } => data.len(),
            RunOutcome::Failed { .. } => 0,
        }
    }
}

/// Law: extraction is deterministic — two runs over the same immutable
/// sources with the same configuration owe, and so yield, identical
/// outcomes, banner and content bytes alike.
pub proof fn lemma_run_deterministic(
    c: Config,
    sources: Seq<SourceData>,
    r1: Seq<OutcomeModel>,
    r2: Seq<OutcomeModel>,
)
    requires
        r1.len() == sources.len(),
        r2.len() == sources.len(),
        forall|i: int| 0 <= i < sources.len() ==> r1[i] == expected_outcome(c, sources, i),
        forall|i: int| 0 <= i < sources.len() ==> r2[i] == expected_outcome(c, sources, i),
    ensures
        r1 == r2,
{
    assert(r1 =~= r2);
}

} // verus!
