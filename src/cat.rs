//! `cat`: line numbering, visible tabs and end markers, and the order in which
//! the inputs' lines and diagnostics come out.
use vstd::prelude::*;
use vstd::string::*;
use crate::text::{chars_of, decimal, is_white_space, pad_decimal, pad_left, push_char, views, white_space};

verus! {

/// The flags of one `cat` invocation.
///
/// `squeeze_blank` is accepted and stored, but the line transform does not
/// consult it: consecutive blank lines are all printed.
#[derive(Clone, Copy, PartialEq, Eq, Structural, Debug)]
pub struct CatOptions {
    pub number_lines: bool,
    pub number_nonblank_lines: bool,
    pub show_ends: bool,
    pub show_tabs: bool,
    pub squeeze_blank: bool,
}

/// Every flag off.
pub open spec fn no_options() -> CatOptions {
    CatOptions {
        number_lines: false,
        number_nonblank_lines: false,
        show_ends: false,
        show_tabs: false,
        squeeze_blank: false,
    }
}

/// The single-letter flags that `cat` knows.
pub open spec fn known_flag(flag: char) -> bool {
    flag == 'n' || flag == 'b' || flag == 'E' || flag == 'T' || flag == 'A' || flag == 's'
}

/// The options after one flag letter: `b` turns line numbering off in favour
/// of numbering non-blank lines, `A` stands for `E` and `T` together, and an
/// unknown letter changes nothing.
pub open spec fn with_flag(o: CatOptions, flag: char) -> CatOptions {
    if flag == 'n' {
        CatOptions { number_lines: true, ..o }
    } else if flag == 'b' {
        CatOptions { number_nonblank_lines: true, number_lines: false, ..o }
    } else if flag == 'E' {
        CatOptions { show_ends: true, ..o }
    } else if flag == 'T' {
        CatOptions { show_tabs: true, ..o }
    } else if flag == 'A' {
        CatOptions { show_ends: true, show_tabs: true, ..o }
    } else if flag == 's' {
        CatOptions { squeeze_blank: true, ..o }
    } else {
        o
    }
}

impl Default for CatOptions {
    fn default() -> (r: Self)
        ensures
            r == no_options(),
    {
        CatOptions {
            number_lines: false,
            number_nonblank_lines: false,
            show_ends: false,
            show_tabs: false,
            squeeze_blank: false,
        }
    }
}

impl CatOptions {
    /// Applies one flag letter; tells whether the letter is known.
    pub fn apply_flag(&mut self, flag: char) -> (known: bool)
        ensures
            known == known_flag(flag),
            *final(self) == with_flag(*old(self), flag),
            flag == 'b' ==> final(self).number_nonblank_lines && !final(self).number_lines,
    {
        if flag == 'n' {
            self.number_lines = true;
        } else if flag == 'b' {
            self.number_nonblank_lines = true;
            self.number_lines = false;
        } else if flag == 'E' {
            self.show_ends = true;
        } else if flag == 'T' {
            self.show_tabs = true;
        } else if flag == 'A' {
            self.show_ends = true;
            self.show_tabs = true;
        } else if flag == 's' {
            self.squeeze_blank = true;
        } else {
            return false;
        }
        true
    }
}

/// A line is blank when it holds nothing but white space.
pub open spec fn is_blank(s: Seq<char>) -> bool {
    forall|i: int| 0 <= i < s.len() ==> white_space(#[trigger] s[i])
}

/// Whether a line gets a number under `o`.
pub open spec fn numbered(o: CatOptions, s: Seq<char>) -> bool {
    if o.number_nonblank_lines && is_blank(s) {
        false
    } else {
        o.number_lines || o.number_nonblank_lines
    }
}

/// `s` with every tab written as `^I`.
pub open spec fn tabs_shown(s: Seq<char>) -> Seq<char>
    decreases s.len(),
{
    if s.len() == 0 {
        s
    } else if s.last() == '\t' {
        tabs_shown(s.drop_last()) + seq!['^', 'I']
    } else {
        tabs_shown(s.drop_last()).push(s.last())
    }
}

/// One output line: the number, if any, right-justified in six columns and
/// followed by a tab; the content, with tabs shown under `show_tabs`; and `$`
/// at the end under `show_ends`.
pub open spec fn formatted(s: Seq<char>, number: Option<nat>, o: CatOptions) -> Seq<char> {
    let prefix = match number {
        Some(n) => pad_left(decimal(n), 6).push('\t'),
        None => Seq::empty(),
    };
    let body = if o.show_tabs {
        tabs_shown(s)
    } else {
        s
    };
    let end = if o.show_ends {
        seq!['$']
    } else {
        Seq::empty()
    };
    prefix + body + end
}

/// A line number as a mathematical integer.
pub open spec fn nat_of(n: Option<usize>) -> Option<nat> {
    match n {
        Some(k) => Some(k as nat),
        None => None,
    }
}

/// Whether `line` holds nothing but white space.
pub fn is_blank_line(line: &str) -> (r: bool)
    ensures
        r == is_blank(line@),
{
    let cs = chars_of(line);
    let mut i: usize = 0;
    while i < cs.len()
        invariant
            i <= cs.len(),
            cs@ == line@,
            forall|j: int| 0 <= j < i ==> white_space(#[trigger] cs@[j]),
        decreases cs.len() - i,
    {
        if !is_white_space(cs[i]) {
            return false;
        }
        i = i + 1;
    }
    true
}

/// Formats one line, with the given number or none.
pub fn format_line(line: &str, line_number: Option<usize>, options: &CatOptions) -> (r: String)
    ensures
        r@ == formatted(line@, nat_of(line_number), *options),
{
    let mut result = String::new();
    if let Some(num) = line_number {
        result = pad_decimal(num as u64, 6);
        push_char(&mut result, '\t');
    }
    let ghost prefix = result@;
    if options.show_tabs {
        let cs = chars_of(line);
        let mut i: usize = 0;
        while i < cs.len()
            invariant
                i <= cs.len(),
                cs@ == line@,
                result@ == prefix + tabs_shown(cs@.subrange(0, i as int)),
            decreases cs.len() - i,
        {
            assert(cs@.subrange(0, i + 1).drop_last() =~= cs@.subrange(0, i as int));
            if cs[i] == '\t' {
                push_char(&mut result, '^');
                push_char(&mut result, 'I');
            } else {
                push_char(&mut result, cs[i]);
            }
            i = i + 1;
            assert(result@ =~= prefix + tabs_shown(cs@.subrange(0, i as int)));
        }
        assert(cs@.subrange(0, cs.len() as int) =~= cs@);
    } else {
        result.append(line);
    }
    if options.show_ends {
        push_char(&mut result, '$');
    }
    assert(result@ =~= formatted(line@, nat_of(line_number), *options));
    result
}

/// Formats one line of a stream whose next number is `*line_number`, and
/// moves that number on when the line is numbered.
pub fn process_line(line: &str, line_number: &mut usize, options: &CatOptions) -> (r: String)
    requires
        *old(line_number) < usize::MAX,
    ensures
        numbered(*options, line@) ==> r@ == formatted(line@, Some(*old(line_number) as nat), *options)
            && *final(line_number) == *old(line_number) + 1,
        !numbered(*options, line@) ==> r@ == formatted(line@, None, *options) && *final(line_number)
            == *old(line_number),
{
    let blank = is_blank_line(line);
    if options.number_nonblank_lines && blank {
        format_line(line, None, options)
    } else if options.number_lines || (options.number_nonblank_lines && !blank) {
        let r = format_line(line, Some(*line_number), options);
        *line_number = *line_number + 1;
        r
    } else {
        format_line(line, None, options)
    }
}

/// How many of `lines` get a number under `o`.
pub open spec fn numbered_count(lines: Seq<Seq<char>>, o: CatOptions) -> nat
    decreases lines.len(),
{
    if lines.len() == 0 {
        0
    } else {
        numbered_count(lines.drop_last(), o) + if numbered(o, lines.last()) {
            1nat
        } else {
            0nat
        }
    }
}

/// The output for the lines of one input: one line out for each line in, the
/// numbers counting from 1 within this input.
pub open spec fn rendered(lines: Seq<Seq<char>>, o: CatOptions) -> Seq<Seq<char>> {
    Seq::new(
        lines.len(),
        |i: int|
            formatted(
                lines[i],
                if numbered(o, lines[i]) {
                    Some(1 + numbered_count(lines.take(i), o))
                } else {
                    None
                },
                o,
            ),
    )
}

/// No more lines are numbered than there are lines.
proof fn lemma_numbered_count_bound(lines: Seq<Seq<char>>, o: CatOptions)
    ensures
        numbered_count(lines, o) <= lines.len(),
    decreases lines.len(),
{
    if lines.len() > 0 {
        lemma_numbered_count_bound(lines.drop_last(), o);
    }
}

/// Formats the lines of one input, numbering from 1.
pub fn render_lines(lines: &Vec<String>, options: &CatOptions) -> (r: Vec<String>)
    ensures
        r.len() == lines.len(),
        views(r@) == rendered(views(lines@), *options),
{
    let ghost ls = views(lines@);
    let mut r: Vec<String> = Vec::new();
    // lines numbered so far
    let mut count: usize = 0;
    let mut i: usize = 0;
    while i < lines.len()
        invariant
            i <= lines.len(),
            ls == views(lines@),
            count == numbered_count(ls.take(i as int), *options),
            r.len() == i,
            forall|j: int| 0 <= j < i ==> #[trigger] r@[j]@ == rendered(ls, *options)[j],
        decreases lines.len() - i,
    {
        proof {
            lemma_numbered_count_bound(ls.take(i as int), *options);
            assert(ls.take(i + 1).drop_last() =~= ls.take(i as int));
        }
        let line = lines[i].as_str();
        let blank = is_blank_line(line);
        let out = if options.number_nonblank_lines && blank {
            format_line(line, None, options)
        } else if options.number_lines || options.number_nonblank_lines {
            let f = format_line(line, Some(count + 1), options);
            count = count + 1;
            f
        } else {
            format_line(line, None, options)
        };
        r.push(out);
        i = i + 1;
    }
    assert(views(r@) =~= rendered(ls, *options));
    r
}

/// What reading one input gave.
pub enum Input {
    /// The path does not exist.
    Missing,
    /// The lines read, in order, and the error that ended reading early, if
    /// one did; an input that could not be opened has no lines and an error.
    Read { lines: Vec<String>, failure: Option<String> },
}

/// The contents of an [`Input`].
pub enum InputView {
    Missing,
    Read { lines: Seq<Seq<char>>, failure: Option<Seq<char>> },
}

/// The contents of an optional string.
pub open spec fn opt_view(s: Option<String>) -> Option<Seq<char>> {
    match s {
        Some(e) => Some(e@),
        None => None,
    }
}

impl View for Input {
    type V = InputView;

    open spec fn view(&self) -> InputView {
        match self {
            Input::Missing => InputView::Missing,
            Input::Read { lines, failure } => InputView::Read {
                lines: views(lines@),
                failure: opt_view(*failure),
            },
        }
    }
}

/// One line of output, with the stream it goes to.
pub enum Line {
    Stdout(String),
    Stderr(String),
}

/// The contents of a [`Line`].
pub enum LineView {
    Stdout(Seq<char>),
    Stderr(Seq<char>),
}

impl View for Line {
    type V = LineView;

    open spec fn view(&self) -> LineView {
        match self {
            Line::Stdout(s) => LineView::Stdout(s@),
            Line::Stderr(s) => LineView::Stderr(s@),
        }
    }
}

/// What a run of `cat` writes, in order, and the error that ends it, if any.
pub struct CatOutcome {
    pub output: Vec<Line>,
    pub error: Option<String>,
}

/// The contents of output lines.
pub open spec fn line_views(v: Seq<Line>) -> Seq<LineView> {
    v.map_values(|l: Line| l@)
}

/// The contents of inputs.
pub open spec fn input_views(v: Seq<Input>) -> Seq<InputView> {
    v.map_values(|i: Input| i@)
}

/// Lines bound for standard output.
pub open spec fn to_stdout(lines: Seq<Seq<char>>) -> Seq<LineView> {
    lines.map_values(|l: Seq<char>| LineView::Stdout(l))
}

/// The diagnostic for a path that does not exist.
pub open spec fn missing_message(path: Seq<char>) -> Seq<char> {
    "cat: "@ + path + ": No such file or directory"@
}

/// The diagnostic for an input whose reading failed.
pub open spec fn failure_message(path: Seq<char>, error: Seq<char>) -> Seq<char> {
    "cat: "@ + path + ": "@ + error
}

/// What one named input contributes: its formatted lines, then a diagnostic
/// if reading it failed; or only a diagnostic if it does not exist.
pub open spec fn file_transcript(path: Seq<char>, input: InputView, o: CatOptions) -> Seq<
    LineView,
> {
    match input {
        InputView::Missing => seq![LineView::Stderr(missing_message(path))],
        InputView::Read { lines, failure } => to_stdout(rendered(lines, o)) + match failure {
            Some(e) => seq![LineView::Stderr(failure_message(path, e))],
            None => Seq::empty(),
        },
    }
}

/// The named inputs' contributions, one after another in the order given.
pub open spec fn transcript(paths: Seq<Seq<char>>, inputs: Seq<InputView>, o: CatOptions) -> Seq<
    LineView,
>
    decreases paths.len(),
{
    if paths.len() == 0 {
        Seq::empty()
    } else {
        transcript(paths.drop_last(), inputs, o) + file_transcript(
            paths.last(),
            inputs[paths.len() - 1],
            o,
        )
    }
}

/// The whole run: with no paths, standard input alone, whose failure ends the
/// run with that error; otherwise each path in turn, and no error for the run.
pub open spec fn outcome(paths: Seq<Seq<char>>, inputs: Seq<InputView>, o: CatOptions) -> (Seq<
    LineView,
>, Option<Seq<char>>) {
    if paths.len() == 0 {
        match inputs[0] {
            InputView::Read { lines, failure } => (to_stdout(rendered(lines, o)), failure),
            InputView::Missing => (Seq::empty(), None),
        }
    } else {
        (transcript(paths, inputs, o), None)
    }
}

/// The three parts of a diagnostic, joined.
fn message(prefix: &str, path: &str, rest: &str) -> (r: String)
    ensures
        r@ == prefix@ + path@ + rest@,
{
    let mut r = String::from_str(prefix);
    r.append(path);
    r.append(rest);
    r
}

/// Appends the lines, each bound for standard output.
fn push_stdout(out: &mut Vec<Line>, lines: &Vec<String>)
    ensures
        line_views(final(out)@) == line_views(old(out)@) + to_stdout(views(lines@)),
{
    let ghost start = line_views(out@);
    let mut i: usize = 0;
    while i < lines.len()
        invariant
            i <= lines.len(),
            line_views(out@) == start + to_stdout(views(lines@.take(i as int))),
        decreases lines.len() - i,
    {
        let l = lines[i].clone();
        let ghost prev = out@;
        out.push(Line::Stdout(l));
        assert(out@ =~= prev.push(Line::Stdout(l)));
        assert(line_views(out@) =~= line_views(prev).push(LineView::Stdout(l@)));
        assert(views(lines@.take(i + 1)) =~= views(lines@.take(i as int)).push(l@));
        assert(to_stdout(views(lines@.take(i + 1))) =~= to_stdout(views(lines@.take(i as int))).push(LineView::Stdout(l@)));
        i = i + 1;
        assert(line_views(out@) =~= start + to_stdout(views(lines@.take(i as int))));
    }
    assert(lines@.take(lines.len() as int) =~= lines@);
}

/// Runs `cat` over `files`, given what reading each of them gave (or, with no
/// files, what reading standard input gave, as the one input).
pub fn run(files: &Vec<String>, inputs: &Vec<Input>, options: &CatOptions) -> (r: CatOutcome)
    requires
        files.len() == 0 ==> inputs.len() == 1 && inputs[0] is Read,
        files.len() > 0 ==> inputs.len() == files.len(),
    ensures
        (line_views(r.output@), opt_view(r.error)) == outcome(
            views(files@),
            input_views(inputs@),
            *options,
        ),
{
    let mut output: Vec<Line> = Vec::new();
    if files.len() == 0 {
        match &inputs[0] {
            Input::Read { lines, failure } => {
                push_stdout(&mut output, &render_lines(lines, options));
                let error = match failure {
                    Some(e) => Some(e.clone()),
                    None => None,
                };
                assert(line_views(output@) =~= to_stdout(rendered(views(lines@), *options)));
                return CatOutcome { output, error };
            },
            Input::Missing => {
                return CatOutcome { output, error: None };
            },
        }
    }
    let ghost paths = views(files@);
    let ghost ins = input_views(inputs@);
    let mut i: usize = 0;
    while i < files.len()
        invariant
            i <= files.len(),
            inputs.len() == files.len(),
            paths == views(files@),
            ins == input_views(inputs@),
            line_views(output@) == transcript(paths.take(i as int), ins, *options),
        decreases files.len() - i,
    {
        let ghost before = line_views(output@);
        let path = files[i].as_str();
        match &inputs[i] {
            Input::Missing => {
                let m = message("cat: ", path, ": No such file or directory");
                output.push(Line::Stderr(m));
                assert(ins[i as int] == InputView::Missing);
                assert(line_views(output@) =~= before.push(LineView::Stderr(m@)));
            },
            Input::Read { lines, failure } => {
                let rendered_lines = render_lines(lines, options);
                push_stdout(&mut output, &rendered_lines);
                let ghost mid = line_views(output@);
                assert(mid == before + to_stdout(rendered(views(lines@), *options)));
                if let Some(e) = failure {
                    let mut m = message("cat: ", path, ": ");
                    m.append(e.as_str());
                    assert(m@ =~= failure_message(path@, e@));
                    output.push(Line::Stderr(m));
                    assert(line_views(output@) =~= mid.push(LineView::Stderr(m@)));
                } else {
                    assert(mid =~= mid + Seq::<LineView>::empty());
                }
            },
        }
        proof {
            assert(paths.take(i + 1).drop_last() =~= paths.take(i as int));
            assert(line_views(output@) =~= before + file_transcript(paths[i as int], ins[i as int], *options));
        }
        i = i + 1;
    }
    assert(paths.take(files.len() as int) =~= paths);
    CatOutcome { output, error: None }
}

/// The parsed command line of `cat`.
pub struct CatArgs {
    pub options: CatOptions,
    /// The file paths, in the order given.
    pub files: Vec<String>,
    /// The flag letters that `cat` does not know, in the order given.
    pub invalid: Vec<char>,
}

/// An argument of two or more characters that starts with `-` holds flag
/// letters; any other argument is a path.
pub open spec fn is_flag_token(a: Seq<char>) -> bool {
    a.len() > 1 && a[0] == '-'
}

/// `o` after the flag letters in order.
pub open spec fn flags_applied(o: CatOptions, flags: Seq<char>) -> CatOptions
    decreases flags.len(),
{
    if flags.len() == 0 {
        o
    } else {
        with_flag(flags_applied(o, flags.drop_last()), flags.last())
    }
}

/// The letters among `flags` that `cat` does not know.
pub open spec fn unknown_flags(flags: Seq<char>) -> Seq<char>
    decreases flags.len(),
{
    if flags.len() == 0 {
        flags
    } else if known_flag(flags.last()) {
        unknown_flags(flags.drop_last())
    } else {
        unknown_flags(flags.drop_last()).push(flags.last())
    }
}

/// The options, paths and unknown letters of the arguments, read left to
/// right from no options at all.
pub open spec fn parsed(args: Seq<Seq<char>>) -> (CatOptions, Seq<Seq<char>>, Seq<char>)
    decreases args.len(),
{
    if args.len() == 0 {
        (no_options(), Seq::empty(), Seq::empty())
    } else {
        let (o, files, unknown) = parsed(args.drop_last());
        let a = args.last();
        if is_flag_token(a) {
            (flags_applied(o, a.drop_first()), files, unknown + unknown_flags(a.drop_first()))
        } else {
            (o, files.push(a), unknown)
        }
    }
}

/// Reads the arguments of `cat` (without the program's name).
pub fn parse_args(args: &Vec<String>) -> (r: CatArgs)
    ensures
        (r.options, views(r.files@), r.invalid@) == parsed(views(args@)),
{
    let ghost a = views(args@);
    let mut options = CatOptions::default();
    let mut files: Vec<String> = Vec::new();
    let mut invalid: Vec<char> = Vec::new();
    let mut i: usize = 0;
    while i < args.len()
        invariant
            i <= args.len(),
            a == views(args@),
            (options, views(files@), invalid@) == parsed(a.take(i as int)),
        decreases args.len() - i,
    {
        proof {
            assert(a.take(i + 1).drop_last() =~= a.take(i as int));
        }
        let cs = chars_of(args[i].as_str());
        if cs.len() > 1 && cs[0] == '-' {
            let ghost o0 = options;
            let ghost u0 = invalid@;
            let mut j: usize = 1;
            while j < cs.len()
                invariant
                    1 <= j <= cs.len(),
                    options == flags_applied(o0, cs@.subrange(1, j as int)),
                    invalid@ == u0 + unknown_flags(cs@.subrange(1, j as int)),
                decreases cs.len() - j,
            {
                proof {
                    assert(cs@.subrange(1, j + 1).drop_last() =~= cs@.subrange(1, j as int));
                }
                let known = options.apply_flag(cs[j]);
                if !known {
                    invalid.push(cs[j]);
                }
                j = j + 1;
                assert(invalid@ =~= u0 + unknown_flags(cs@.subrange(1, j as int)));
            }
            assert(cs@.subrange(1, cs.len() as int) =~= cs@.drop_first());
        } else {
            let ghost prev = files@;
            files.push(args[i].clone());
            assert(views(files@) =~= views(prev).push(a[i as int]));
        }
        i = i + 1;
    }
    assert(a.take(args.len() as int) =~= a);
    CatArgs { options, files, invalid }
}

/// With no flags, `cat` writes every line of an input exactly as it was read.
pub proof fn lemma_plain_cat_is_identity(lines: Seq<Seq<char>>)
    ensures
        rendered(lines, no_options()) == lines,
{
    assert forall|i: int| 0 <= i < lines.len() implies #[trigger] rendered(lines, no_options())[i]
        == lines[i] by {
        assert(formatted(lines[i], None, no_options()) =~= lines[i]);
    }
    assert(rendered(lines, no_options()) =~= lines);
}

} // verus!
