//! Splitting a normalized docstring into its title, body and labelled sections, and
//! reading the `name: description` fields of a section.
use vstd::prelude::*;

use crate::cleandoc::{cleandoc, cleandoc_text};
use crate::text::{
    append_chars, blank, chars_of, copy_lines, ends_solid, has_no_newline, is_blank, join,
    lemma_blank_concat, lemma_lines_no_newline, lemma_trim_idempotent, lemma_trim_then_join,
    is_space,
    lemma_newline_count_concat, lemma_no_newline_count, lines_of, newline_count, slice, split_lines,
    starts_with, starts_with_chars, string_of, trim, trim_chars, views,
};

verus! {

/// An argument as a docstring documents it; the type and the default come from a signature.
#[derive(Debug, PartialEq, Eq)]
pub struct Argument {
    pub name: String,
    pub type_: Option<String>,
    pub default: Option<String>,
    pub description: Option<String>,
}

/// An exception that a docstring says may be raised.
#[derive(Debug, PartialEq, Eq)]
pub struct Raises {
    pub exception: String,
    pub description: Option<String>,
}

/// A stretch of the body: prose, or lines of a REPL example without their `>>> ` marker.
#[derive(Debug, PartialEq, Eq)]
pub enum BodyPart {
    Text(String),
    CodeSnippet(String),
}

/// A docstring read into its parts.
#[derive(Debug)]
pub struct Docstring {
    pub title: String,
    pub description: String,
    pub returns: String,
    pub body: Vec<BodyPart>,
    pub arguments: Vec<Argument>,
    pub private_arguments: Vec<Argument>,
    pub raises: Vec<Raises>,
}

/// One `key: description` entry of a section.
#[derive(Debug, PartialEq, Eq)]
pub struct Field {
    pub key: String,
    pub description: String,
}

/// Where the lines of a docstring go.
#[derive(PartialEq, Eq, Structural, Clone, Copy)]
pub enum Section {
    Body,
    Arguments,
    PrivateArguments,
    Returns,
    Raises,
}

pub enum PartModel {
    Text(Seq<char>),
    Code(Seq<char>),
}

pub struct FieldModel {
    pub key: Seq<char>,
    pub description: Seq<char>,
}

pub struct ArgumentModel {
    pub name: Seq<char>,
    pub type_: Option<Seq<char>>,
    pub default: Option<Seq<char>>,
    pub description: Option<Seq<char>>,
}

pub struct RaisesModel {
    pub exception: Seq<char>,
    pub description: Option<Seq<char>>,
}

pub struct DocstringModel {
    pub title: Seq<char>,
    pub description: Seq<char>,
    pub returns: Seq<char>,
    pub body: Seq<PartModel>,
    pub arguments: Seq<ArgumentModel>,
    pub private_arguments: Seq<ArgumentModel>,
    pub raises: Seq<RaisesModel>,
}

/// The state of the section splitter after some lines.
pub struct SplitModel {
    pub dest: Section,
    pub description: Seq<char>,
    pub arguments: Seq<char>,
    pub private_arguments: Seq<char>,
    pub returns: Seq<char>,
    pub raises: Seq<char>,
    pub parts: Seq<PartModel>,
    pub open: Option<PartModel>,
}

pub open spec fn opt_view(o: Option<String>) -> Option<Seq<char>> {
    match o {
        Some(s) => Some(s@),
        None => None,
    }
}

impl View for BodyPart {
    type V = PartModel;

    open spec fn view(&self) -> PartModel {
        match self {
            BodyPart::Text(s) => PartModel::Text(s@),
            BodyPart::CodeSnippet(s) => PartModel::Code(s@),
        }
    }
}

impl View for Field {
    type V = FieldModel;

    open spec fn view(&self) -> FieldModel {
        FieldModel { key: self.key@, description: self.description@ }
    }
}

impl View for Argument {
    type V = ArgumentModel;

    open spec fn view(&self) -> ArgumentModel {
        ArgumentModel {
            name: self.name@,
            type_: opt_view(self.type_),
            default: opt_view(self.default),
            description: opt_view(self.description),
        }
    }
}

impl View for Raises {
    type V = RaisesModel;

    open spec fn view(&self) -> RaisesModel {
        RaisesModel { exception: self.exception@, description: opt_view(self.description) }
    }
}

pub open spec fn part_views(s: Seq<BodyPart>) -> Seq<PartModel> {
    s.map_values(|p: BodyPart| p@)
}

pub open spec fn field_views(s: Seq<Field>) -> Seq<FieldModel> {
    s.map_values(|f: Field| f@)
}

pub open spec fn argument_views(s: Seq<Argument>) -> Seq<ArgumentModel> {
    s.map_values(|a: Argument| a@)
}

pub open spec fn raises_views(s: Seq<Raises>) -> Seq<RaisesModel> {
    s.map_values(|r: Raises| r@)
}

impl View for Docstring {
    type V = DocstringModel;

    open spec fn view(&self) -> DocstringModel {
        DocstringModel {
            title: self.title@,
            description: self.description@,
            returns: self.returns@,
            body: part_views(self.body@),
            arguments: argument_views(self.arguments@),
            private_arguments: argument_views(self.private_arguments@),
            raises: raises_views(self.raises@),
        }
    }
}

/// A text whose lines `textwrap::dedent` gives back as they are: it opens with a
/// character other than whitespace (so the shared prefix is empty), none of its lines is
/// whitespace alone but an empty one (such a line is emptied), and none ends in a `'\r'`
/// (which would read as part of a line ending once the lines are joined again).
pub open spec fn dedent_keeps(s: Seq<char>) -> bool {
    &&& s.len() > 0
    &&& !is_space(s[0])
    &&& forall|i: int|
        0 <= i < lines_of(s).len() ==> lines_of(s)[i].len() == 0 || !is_blank(
            #[trigger] lines_of(s)[i],
        )
    &&& forall|i: int|
        0 <= i < lines_of(s).len() ==> !(lines_of(s)[i].len() > 0 && #[trigger] lines_of(
            s,
        )[i].last() == '\r')
}

/// What `textwrap::dedent` makes of a text.
pub uninterp spec fn dedented(s: Seq<char>) -> Seq<char>;

/// Relies on `textwrap::dedent`: the text without the whitespace prefix that all its
/// non-blank lines share.
#[verifier::external_body]
pub(crate) fn dedent(s: &str) -> (r: String)
    ensures
        r@ == dedented(s@),
        s@.len() == 0 ==> r@.len() == 0,
        dedent_keeps(s@) ==> lines_of(r@) == lines_of(s@),
{
    textwrap::dedent(s)
}

// ----- fields of a section -----

/// Position of the first `':'` of `l`.
pub open spec fn colon_pos(l: Seq<char>) -> Option<nat>
    decreases l.len(),
{
    if l.len() == 0 {
        None
    } else if l[0] == ':' {
        Some(0)
    } else {
        match colon_pos(l.drop_first()) {
            Some(i) => Some(i + 1),
            None => None,
        }
    }
}

/// One line of a section: a line with a colon opens a field, any other line continues
/// the open one (and is dropped while none is open).
pub open spec fn field_step(
    done: Seq<FieldModel>,
    open: Option<FieldModel>,
    line: Seq<char>,
) -> (Seq<FieldModel>, Option<FieldModel>) {
    match colon_pos(line) {
        Some(i) => {
            let done2 = match open {
                Some(f) => done.push(f),
                None => done,
            };
            (
                done2,
                Some(
                    FieldModel {
                        key: trim(line.take(i as int)),
                        description: trim(line.skip(i as int + 1)),
                    },
                ),
            )
        },
        None => match open {
            None => (done, None),
            Some(f) => (
                done,
                Some(
                    FieldModel {
                        key: f.key,
                        description: trim(f.description + seq!['\n'] + line),
                    },
                ),
            ),
        },
    }
}

pub open spec fn field_scan(ls: Seq<Seq<char>>) -> (Seq<FieldModel>, Option<FieldModel>)
    decreases ls.len(),
{
    if ls.len() == 0 {
        (Seq::empty(), None)
    } else {
        let prev = field_scan(ls.drop_last());
        field_step(prev.0, prev.1, ls.last())
    }
}

/// The fields of a section's text, in order.
pub open spec fn fields_of(text: Seq<char>) -> Seq<FieldModel> {
    let st = field_scan(lines_of(text));
    match st.1 {
        Some(f) => st.0.push(f),
        None => st.0,
    }
}

pub open spec fn field_argument(f: FieldModel) -> ArgumentModel {
    ArgumentModel { name: f.key, type_: None, default: None, description: Some(f.description) }
}

pub open spec fn field_raises(f: FieldModel) -> RaisesModel {
    RaisesModel { exception: f.key, description: Some(f.description) }
}

pub proof fn lemma_colon_pos(l: Seq<char>, i: nat)
    requires
        i <= l.len(),
        forall|j: int| 0 <= j < i ==> #[trigger] l[j] != ':',
    ensures
        i < l.len() && l[i as int] == ':' ==> colon_pos(l) == Some(i),
        i == l.len() ==> colon_pos(l) is None,
    decreases i,
{
    if i > 0 {
        let t = l.drop_first();
        assert forall|j: int| 0 <= j < i - 1 implies #[trigger] t[j] != ':' by {
            assert(t[j] == l[j + 1]);
        }
        if i < l.len() {
            assert(t[i - 1] == l[i as int]);
        }
        lemma_colon_pos(t, (i - 1) as nat);
    }
}

fn find_colon(l: &Vec<char>) -> (r: Option<usize>)
    ensures
        match r {
            Some(i) => colon_pos(l@) == Some(i as nat) && i < l.len(),
            None => colon_pos(l@) is None,
        },
{
    let mut i: usize = 0;
    while i < l.len()
        invariant
            i <= l.len(),
            forall|j: int| 0 <= j < i ==> #[trigger] l@[j] != ':',
        decreases l.len() - i,
    {
        if l[i] == ':' {
            proof {
                lemma_colon_pos(l@, i as nat);
            }
            return Some(i);
        }
        i = i + 1;
    }
    proof {
        lemma_colon_pos(l@, i as nat);
    }
    None
}

struct FieldChars {
    key: Vec<char>,
    description: Vec<char>,
}

impl View for FieldChars {
    type V = FieldModel;

    closed spec fn view(&self) -> FieldModel {
        FieldModel { key: self.key@, description: self.description@ }
    }
}

spec fn field_chars_views(s: Seq<FieldChars>) -> Seq<FieldModel> {
    s.map_values(|f: FieldChars| f@)
}

spec fn opt_field_view(o: Option<FieldChars>) -> Option<FieldModel> {
    match o {
        Some(f) => Some(f@),
        None => None,
    }
}

/// The fields of a section whose common indentation is already gone: a line with a
/// `':'` opens a field whose key is what stands before the first colon, trimmed, and
/// whose description is what follows it, trimmed; a line without one is added to the
/// open field's description after a newline, and the whole description trimmed again.
pub fn parse_fields(text: &str) -> (r: Vec<Field>)
    ensures
        field_views(r@) == fields_of(text@),
{
    let chars = chars_of(text);
    let ls = split_lines(&chars);
    let ghost lv = views(ls@);
    let mut done: Vec<FieldChars> = Vec::new();
    let mut open: Option<FieldChars> = None;
    let mut i: usize = 0;
    while i < ls.len()
        invariant
            i <= ls.len(),
            lv == views(ls@),
            lv == lines_of(text@),
            (field_chars_views(done@), opt_field_view(open)) == field_scan(lv.take(i as int)),
        decreases ls.len() - i,
    {
        proof {
            assert(lv.take(i + 1).drop_last() =~= lv.take(i as int));
            assert(lv[i as int] == ls@[i as int]@);
        }
        let line = &ls[i];
        match find_colon(line) {
            Some(c) => {
                let ghost before = field_chars_views(done@);
                match open {
                    Some(f) => {
                        done.push(f);
                        proof {
                            assert(field_chars_views(done@) =~= before.push(f@));
                        }
                    },
                    None => {},
                }
                let key = trim_chars(&slice(line, 0, c));
                let description = trim_chars(&slice(line, c + 1, line.len()));
                proof {
                    assert(line@.take(c as int) =~= line@.subrange(0, c as int));
                    assert(line@.skip(c + 1) =~= line@.subrange(c + 1, line.len() as int));
                }
                open = Some(FieldChars { key, description });
            },
            None => {
                open = match open {
                    None => None,
                    Some(f) => {
                        let mut d = f.description;
                        d.push('\n');
                        append_chars(&mut d, line);
                        proof {
                            assert(d@ =~= f.description@ + seq!['\n'] + line@);
                        }
                        Some(FieldChars { key: f.key, description: trim_chars(&d) })
                    },
                };
            },
        }
        i = i + 1;
    }
    proof {
        assert(lv.take(ls.len() as int) =~= lv);
    }
    match open {
        Some(f) => {
            let ghost before = field_chars_views(done@);
            done.push(f);
            proof {
                assert(field_chars_views(done@) =~= before.push(f@));
            }
        },
        None => {},
    }
    let mut r: Vec<Field> = Vec::new();
    let mut k: usize = 0;
    while k < done.len()
        invariant
            k <= done.len(),
            field_views(r@) == field_chars_views(done@).take(k as int),
        decreases done.len() - k,
    {
        let f = Field { key: string_of(&done[k].key), description: string_of(&done[k].description) };
        let ghost before = field_views(r@);
        r.push(f);
        proof {
            assert(field_views(r@) =~= before.push(field_chars_views(done@)[k as int]));
            assert(field_chars_views(done@).take(k + 1) =~= field_chars_views(done@).take(
                k as int,
            ).push(field_chars_views(done@)[k as int]));
        }
        k = k + 1;
    }
    proof {
        assert(field_chars_views(done@).take(done.len() as int) =~= field_chars_views(done@));
    }
    r
}

/// The documented arguments of a section's text.
pub fn parse_arguments(section: &str) -> (r: Vec<Argument>)
    ensures
        argument_views(r@) == fields_of(dedented(section@)).map_values(
            |f: FieldModel| field_argument(f),
        ),
        dedent_keeps(section@) && single_field_shape(lines_of(section@)) ==> argument_views(r@)
            == seq![field_argument(single_field(lines_of(section@)))],
{
    proof {
        if single_field_shape(lines_of(section@)) {
            lemma_single_field(section@);
        }
    }
    let d = dedent(section);
    let fields = parse_fields(d.as_str());
    let mut r: Vec<Argument> = Vec::new();
    let mut k: usize = 0;
    let ghost target = fields_of(dedented(section@)).map_values(|f: FieldModel| field_argument(f));
    while k < fields.len()
        invariant
            k <= fields.len(),
            field_views(fields@) == fields_of(dedented(section@)),
            target == fields_of(dedented(section@)).map_values(|f: FieldModel| field_argument(f)),
            argument_views(r@) == target.take(k as int),
        decreases fields.len() - k,
    {
        let a = Argument {
            name: fields[k].key.clone(),
            type_: None,
            default: None,
            description: Some(fields[k].description.clone()),
        };
        let ghost before = argument_views(r@);
        r.push(a);
        proof {
            assert(field_views(fields@)[k as int] == fields@[k as int]@);
            assert(argument_views(r@) =~= before.push(target[k as int]));
            assert(target.take(k + 1) =~= target.take(k as int).push(target[k as int]));
        }
        k = k + 1;
    }
    proof {
        assert(target.take(fields.len() as int) =~= target);
    }
    r
}

/// The documented exceptions of a section's text.
pub fn parse_raises(section: &str) -> (r: Vec<Raises>)
    ensures
        raises_views(r@) == fields_of(dedented(section@)).map_values(
            |f: FieldModel| field_raises(f),
        ),
        dedent_keeps(section@) && single_field_shape(lines_of(section@)) ==> raises_views(r@)
            == seq![field_raises(single_field(lines_of(section@)))],
{
    proof {
        if single_field_shape(lines_of(section@)) {
            lemma_single_field(section@);
        }
    }
    let d = dedent(section);
    let fields = parse_fields(d.as_str());
    let mut r: Vec<Raises> = Vec::new();
    let mut k: usize = 0;
    let ghost target = fields_of(dedented(section@)).map_values(|f: FieldModel| field_raises(f));
    while k < fields.len()
        invariant
            k <= fields.len(),
            field_views(fields@) == fields_of(dedented(section@)),
            target == fields_of(dedented(section@)).map_values(|f: FieldModel| field_raises(f)),
            raises_views(r@) == target.take(k as int),
        decreases fields.len() - k,
    {
        let e = Raises {
            exception: fields[k].key.clone(),
            description: Some(fields[k].description.clone()),
        };
        let ghost before = raises_views(r@);
        r.push(e);
        proof {
            assert(field_views(fields@)[k as int] == fields@[k as int]@);
            assert(raises_views(r@) =~= before.push(target[k as int]));
            assert(target.take(k + 1) =~= target.take(k as int).push(target[k as int]));
        }
        k = k + 1;
    }
    proof {
        assert(target.take(fields.len() as int) =~= target);
    }
    r
}


// ----- title, body and sections -----

/// The section that a header line opens; the first matching prefix wins.
pub open spec fn header_of(l: Seq<char>) -> Option<Section> {
    if starts_with(l, "Args:"@) || starts_with(l, "Arguments:"@) {
        Some(Section::Arguments)
    } else if starts_with(l, "Private arguments:"@) {
        Some(Section::PrivateArguments)
    } else if starts_with(l, "Returns:"@) {
        Some(Section::Returns)
    } else if starts_with(l, "Raises:"@) {
        Some(Section::Raises)
    } else {
        None
    }
}

/// One body line: a `>>> ` line joins or opens a code part, any other line joins or
/// opens a text part; a blank text part before code is dropped.
pub open spec fn body_step(parts: Seq<PartModel>, open: Option<PartModel>, line: Seq<char>) -> (
    Seq<PartModel>,
    Option<PartModel>,
) {
    if starts_with(line, ">>> "@) {
        let code = line.skip(">>> "@.len() as int);
        match open {
            Some(PartModel::Code(c)) => (parts, Some(PartModel::Code(c + seq!['\n'] + code))),
            Some(PartModel::Text(t)) => (
                if is_blank(t) {
                    parts
                } else {
                    parts.push(PartModel::Text(t))
                },
                Some(PartModel::Code(code)),
            ),
            None => (parts, Some(PartModel::Code(code))),
        }
    } else {
        match open {
            Some(PartModel::Text(t)) => (parts, Some(PartModel::Text(t + seq!['\n'] + line))),
            Some(PartModel::Code(c)) => (parts.push(PartModel::Code(c)), Some(PartModel::Text(line))),
            None => (parts, Some(PartModel::Text(line))),
        }
    }
}

pub open spec fn with_line(acc: Seq<char>, line: Seq<char>) -> Seq<char> {
    acc + line + seq!['\n']
}

/// One line after the title: a header switches the destination and is kept nowhere;
/// any other line goes to the current destination.
pub open spec fn split_step(st: SplitModel, line: Seq<char>) -> SplitModel {
    match header_of(line) {
        Some(k) => SplitModel { dest: k, ..st },
        None => match st.dest {
            Section::Body => {
                let b = body_step(st.parts, st.open, line);
                SplitModel {
                    description: with_line(st.description, line),
                    parts: b.0,
                    open: b.1,
                    ..st
                }
            },
            Section::Arguments => SplitModel { arguments: with_line(st.arguments, line), ..st },
            Section::PrivateArguments => SplitModel {
                private_arguments: with_line(st.private_arguments, line),
                ..st
            },
            Section::Returns => SplitModel { returns: with_line(st.returns, line), ..st },
            Section::Raises => SplitModel { raises: with_line(st.raises, line), ..st },
        },
    }
}

pub open spec fn split_start() -> SplitModel {
    SplitModel {
        dest: Section::Body,
        description: Seq::empty(),
        arguments: Seq::empty(),
        private_arguments: Seq::empty(),
        returns: Seq::empty(),
        raises: Seq::empty(),
        parts: Seq::empty(),
        open: None,
    }
}

/// The splitter's state after the lines `ls`.
pub open spec fn split_model(ls: Seq<Seq<char>>) -> SplitModel
    decreases ls.len(),
{
    if ls.len() == 0 {
        split_start()
    } else {
        split_step(split_model(ls.drop_last()), ls.last())
    }
}

/// The body parts, the open one closed.
pub open spec fn body_of(st: SplitModel) -> Seq<PartModel> {
    match st.open {
        Some(p) => st.parts.push(p),
        None => st.parts,
    }
}

/// How many non-blank lines open `ls`: the title's lines.
pub open spec fn title_len(ls: Seq<Seq<char>>) -> nat
    decreases ls.len(),
{
    if ls.len() > 0 && !is_blank(ls[0]) {
        1 + title_len(ls.drop_first())
    } else {
        0
    }
}

pub open spec fn title_of(ls: Seq<Seq<char>>) -> Seq<char> {
    join(ls.take(title_len(ls) as int), seq![' '])
}

/// The lines after the title and the blank line that ends it.
pub open spec fn rest_of(ls: Seq<Seq<char>>) -> Seq<Seq<char>> {
    if title_len(ls) < ls.len() {
        ls.skip(title_len(ls) as int + 1)
    } else {
        Seq::empty()
    }
}

/// What a raw docstring reads as.
pub open spec fn docstring_model(raw: Seq<char>) -> DocstringModel {
    let ls = lines_of(cleandoc_text(raw));
    let st = split_model(rest_of(ls));
    DocstringModel {
        title: title_of(ls),
        description: trim(st.description),
        returns: trim(dedented(st.returns)),
        body: body_of(st),
        arguments: fields_of(dedented(st.arguments)).map_values(|f: FieldModel| field_argument(f)),
        private_arguments: fields_of(dedented(st.private_arguments)).map_values(
            |f: FieldModel| field_argument(f),
        ),
        raises: fields_of(dedented(st.raises)).map_values(|f: FieldModel| field_raises(f)),
    }
}

pub proof fn lemma_title_len_is(ls: Seq<Seq<char>>, n: nat)
    requires
        n <= ls.len(),
        forall|j: int| 0 <= j < n ==> !is_blank(#[trigger] ls[j]),
        n == ls.len() || is_blank(ls[n as int]),
    ensures
        title_len(ls) == n,
    decreases n,
{
    if n > 0 {
        let t = ls.drop_first();
        assert forall|j: int| 0 <= j < n - 1 implies !is_blank(#[trigger] t[j]) by {
            assert(t[j] == ls[j + 1]);
        }
        if n - 1 < t.len() {
            assert(t[n - 1] == ls[n as int]);
        }
        lemma_title_len_is(t, (n - 1) as nat);
    }
}

enum Part {
    Text(Vec<char>),
    Code(Vec<char>),
}

impl View for Part {
    type V = PartModel;

    closed spec fn view(&self) -> PartModel {
        match self {
            Part::Text(s) => PartModel::Text(s@),
            Part::Code(s) => PartModel::Code(s@),
        }
    }
}

spec fn part_chars_views(s: Seq<Part>) -> Seq<PartModel> {
    s.map_values(|p: Part| p@)
}

spec fn opt_part_view(o: Option<Part>) -> Option<PartModel> {
    match o {
        Some(p) => Some(p@),
        None => None,
    }
}

struct Splitter {
    dest: Section,
    description: Vec<char>,
    arguments: Vec<char>,
    private_arguments: Vec<char>,
    returns: Vec<char>,
    raises: Vec<char>,
    parts: Vec<Part>,
    open: Option<Part>,
}

impl View for Splitter {
    type V = SplitModel;

    closed spec fn view(&self) -> SplitModel {
        SplitModel {
            dest: self.dest,
            description: self.description@,
            arguments: self.arguments@,
            private_arguments: self.private_arguments@,
            returns: self.returns@,
            raises: self.raises@,
            parts: part_chars_views(self.parts@),
            open: opt_part_view(self.open),
        }
    }
}

fn header(line: &Vec<char>) -> (r: Option<Section>)
    ensures
        r == header_of(line@),
{
    if starts_with_chars(line, "Args:") || starts_with_chars(line, "Arguments:") {
        Some(Section::Arguments)
    } else if starts_with_chars(line, "Private arguments:") {
        Some(Section::PrivateArguments)
    } else if starts_with_chars(line, "Returns:") {
        Some(Section::Returns)
    } else if starts_with_chars(line, "Raises:") {
        Some(Section::Raises)
    } else {
        None
    }
}

fn add_line(acc: &mut Vec<char>, line: &Vec<char>)
    ensures
        final(acc)@ == with_line(old(acc)@, line@),
{
    append_chars(acc, line);
    acc.push('\n');
}

fn body_line(parts: &mut Vec<Part>, open: Option<Part>, line: &Vec<char>) -> (r: Option<Part>)
    ensures
        (part_chars_views(final(parts)@), opt_part_view(r)) == body_step(
            part_chars_views(old(parts)@),
            opt_part_view(open),
            line@,
        ),
{
    let ghost before = part_chars_views(parts@);
    if starts_with_chars(line, ">>> ") {
        proof {
            reveal_strlit(">>> ");
        }
        let code = slice(line, 4, line.len());
        proof {
            assert(code@ =~= line@.skip(">>> "@.len() as int));
        }
        match open {
            Some(Part::Code(c)) => {
                let ghost c0 = c@;
                let mut c = c;
                c.push('\n');
                append_chars(&mut c, &code);
                proof {
                    assert(c@ =~= c0 + seq!['\n'] + code@);
                }
                Some(Part::Code(c))
            },
            Some(Part::Text(t)) => {
                if !blank(&t) {
                    parts.push(Part::Text(t));
                    proof {
                        assert(part_chars_views(parts@) =~= before.push(PartModel::Text(t@)));
                    }
                }
                Some(Part::Code(code))
            },
            None => Some(Part::Code(code)),
        }
    } else {
        match open {
            Some(Part::Text(t)) => {
                let ghost t0 = t@;
                let mut t = t;
                t.push('\n');
                append_chars(&mut t, line);
                proof {
                    assert(t@ =~= t0 + seq!['\n'] + line@);
                }
                Some(Part::Text(t))
            },
            Some(Part::Code(c)) => {
                parts.push(Part::Code(c));
                proof {
                    assert(part_chars_views(parts@) =~= before.push(PartModel::Code(c@)));
                }
                let l = slice(line, 0, line.len());
                proof {
                    assert(l@ =~= line@);
                }
                Some(Part::Text(l))
            },
            None => {
                let l = slice(line, 0, line.len());
                proof {
                    assert(l@ =~= line@);
                }
                Some(Part::Text(l))
            },
        }
    }
}

fn split_line(sp: Splitter, line: &Vec<char>) -> (r: Splitter)
    ensures
        r@ == split_step(sp@, line@),
{
    let mut sp = sp;
    match header(line) {
        Some(k) => {
            sp.dest = k;
        },
        None => match sp.dest {
            Section::Body => {
                add_line(&mut sp.description, line);
                let open = sp.open;
                let mut parts = sp.parts;
                let next = body_line(&mut parts, open, line);
                sp = Splitter { parts, open: next, ..sp };
            },
            Section::Arguments => add_line(&mut sp.arguments, line),
            Section::PrivateArguments => add_line(&mut sp.private_arguments, line),
            Section::Returns => add_line(&mut sp.returns, line),
            Section::Raises => add_line(&mut sp.raises, line),
        },
    }
    sp
}

fn body_parts(parts: Vec<Part>, open: Option<Part>) -> (r: Vec<BodyPart>)
    ensures
        part_views(r@) == match opt_part_view(open) {
            Some(p) => part_chars_views(parts@).push(p),
            None => part_chars_views(parts@),
        },
{
    let mut parts = parts;
    let ghost before = part_chars_views(parts@);
    match open {
        Some(p) => {
            parts.push(p);
            proof {
                assert(part_chars_views(parts@) =~= before.push(p@));
            }
        },
        None => {},
    }
    let mut r: Vec<BodyPart> = Vec::new();
    let mut k: usize = 0;
    while k < parts.len()
        invariant
            k <= parts.len(),
            part_views(r@) == part_chars_views(parts@).take(k as int),
        decreases parts.len() - k,
    {
        let b = match &parts[k] {
            Part::Text(s) => BodyPart::Text(string_of(s)),
            Part::Code(s) => BodyPart::CodeSnippet(string_of(s)),
        };
        let ghost prev = part_views(r@);
        r.push(b);
        proof {
            assert(part_views(r@) =~= prev.push(part_chars_views(parts@)[k as int]));
            assert(part_chars_views(parts@).take(k + 1) =~= part_chars_views(parts@).take(
                k as int,
            ).push(part_chars_views(parts@)[k as int]));
        }
        k = k + 1;
    }
    proof {
        assert(part_chars_views(parts@).take(parts.len() as int) =~= part_chars_views(parts@));
    }
    r
}

impl Docstring {
    /// Reads a raw docstring: normalizes it, takes the title (the lines up to the first
    /// blank one, joined with spaces), splits the rest into body and sections, and reads
    /// the fields of the argument and exception sections.
    pub fn new_from_string(docstring: &str) -> (r: Docstring)
        ensures
            r@ == docstring_model(docstring@),
    {
        let cleaned = cleandoc(docstring);
        let chars = chars_of(cleaned.as_str());
        let ls = split_lines(&chars);
        let ghost lv = views(ls@);
        let n = ls.len();
        let mut t: usize = 0;
        while t < n && !blank(&ls[t])
            invariant
                t <= n == ls.len(),
                lv == views(ls@),
                forall|j: int| 0 <= j < t ==> !is_blank(#[trigger] lv[j]),
            decreases n - t,
        {
            t = t + 1;
        }
        proof {
            lemma_title_len_is(lv, t as nat);
        }
        let title_lines = copy_lines(&ls, 0, t);
        proof {
            assert(lv.subrange(0, t as int) =~= lv.take(t as int));
        }
        let title = string_of(&crate::text::join_chars(&title_lines, ' '));
        let start: usize = if t < n {
            t + 1
        } else {
            n
        };
        let ghost rest = rest_of(lv);
        proof {
            assert(rest =~= lv.subrange(start as int, n as int));
        }
        let mut sp = Splitter {
            dest: Section::Body,
            description: Vec::new(),
            arguments: Vec::new(),
            private_arguments: Vec::new(),
            returns: Vec::new(),
            raises: Vec::new(),
            parts: Vec::new(),
            open: None,
        };
        proof {
            assert(part_chars_views(sp.parts@) =~= Seq::<PartModel>::empty());
            assert(lv.subrange(start as int, start as int) =~= Seq::<Seq<char>>::empty());
        }
        let mut i: usize = start;
        while i < n
            invariant
                start <= i <= n == ls.len(),
                lv == views(ls@),
                sp@ == split_model(lv.subrange(start as int, i as int)),
            decreases n - i,
        {
            proof {
                assert(lv.subrange(start as int, i + 1).drop_last() =~= lv.subrange(
                    start as int,
                    i as int,
                ));
                assert(lv[i as int] == ls@[i as int]@);
            }
            sp = split_line(sp, &ls[i]);
            i = i + 1;
        }
        let ghost st = sp@;
        let Splitter {
            dest: _,
            description,
            arguments,
            private_arguments,
            returns: returns_acc,
            raises,
            parts,
            open,
        } = sp;
        let body = body_parts(parts, open);
        let description = string_of(&trim_chars(&description));
        let returns_text = dedent(string_of(&returns_acc).as_str());
        let returned = string_of(&trim_chars(&chars_of(returns_text.as_str())));
        let arguments = parse_arguments(string_of(&arguments).as_str());
        let private_arguments = parse_arguments(string_of(&private_arguments).as_str());
        let raises = parse_raises(string_of(&raises).as_str());
        let r = Docstring {
            title,
            description,
            returns: returned,
            body,
            arguments,
            private_arguments,
            raises,
        };
        proof {
            assert(r@ == docstring_model(docstring@));
        }
        r
    }
}


// ----- no line is lost -----

/// How many of the lines `ls` are section headers.
pub open spec fn header_count(ls: Seq<Seq<char>>) -> nat
    decreases ls.len(),
{
    if ls.len() == 0 {
        0
    } else {
        header_count(ls.drop_last()) + if header_of(ls.last()) is Some {
            1nat
        } else {
            0nat
        }
    }
}

/// How many lines the body and the four section accumulators have taken.
pub open spec fn fed_count(st: SplitModel) -> nat {
    newline_count(st.description) + newline_count(st.arguments) + newline_count(
        st.private_arguments,
    ) + newline_count(st.returns) + newline_count(st.raises)
}

proof fn lemma_with_line_count(acc: Seq<char>, line: Seq<char>)
    requires
        has_no_newline(line),
    ensures
        newline_count(with_line(acc, line)) == newline_count(acc) + 1,
{
    lemma_newline_count_concat(acc + line, seq!['\n']);
    lemma_newline_count_concat(acc, line);
    lemma_no_newline_count(line);
    let nl = seq!['\n'];
    assert(nl.drop_last() =~= Seq::<char>::empty());
    assert(newline_count(nl.drop_last()) == 0);
    assert(nl.last() == '\n');
    assert(newline_count(nl) == 1);
}

/// Every line that the splitter reads lands in exactly one place: it is a header, or it
/// is appended to the body or to one section.
pub proof fn lemma_split_keeps_every_line(ls: Seq<Seq<char>>)
    requires
        forall|i: int| 0 <= i < ls.len() ==> has_no_newline(#[trigger] ls[i]),
    ensures
        fed_count(split_model(ls)) + header_count(ls) == ls.len(),
    decreases ls.len(),
{
    if ls.len() > 0 {
        let prev = ls.drop_last();
        assert forall|i: int| 0 <= i < prev.len() implies has_no_newline(#[trigger] prev[i]) by {
            assert(prev[i] == ls[i]);
        }
        lemma_split_keeps_every_line(prev);
        let st = split_model(prev);
        let line = ls.last();
        assert(has_no_newline(ls[ls.len() - 1]));
        if header_of(line) is None {
            match st.dest {
                Section::Body => lemma_with_line_count(st.description, line),
                Section::Arguments => lemma_with_line_count(st.arguments, line),
                Section::PrivateArguments => lemma_with_line_count(st.private_arguments, line),
                Section::Returns => lemma_with_line_count(st.returns, line),
                Section::Raises => lemma_with_line_count(st.raises, line),
            }
        }
    } else {
        assert(newline_count(Seq::empty()) == 0);
    }
}

proof fn lemma_title_len_bound(ls: Seq<Seq<char>>)
    ensures
        title_len(ls) <= ls.len(),
    decreases ls.len(),
{
    if ls.len() > 0 && !is_blank(ls[0]) {
        lemma_title_len_bound(ls.drop_first());
    }
}

/// The title's lines, the blank line after them, the header lines, and the lines that
/// the body and the sections take add up to all the lines of the normalized docstring.
pub proof fn lemma_docstring_keeps_every_line(raw: Seq<char>)
    ensures
        ({
            let ls = lines_of(cleandoc_text(raw));
            let rest = rest_of(ls);
            title_len(ls) + (if title_len(ls) < ls.len() {
                1nat
            } else {
                0nat
            }) + header_count(rest) + fed_count(split_model(rest)) == ls.len()
        }),
{
    let ls = lines_of(cleandoc_text(raw));
    let rest = rest_of(ls);
    lemma_title_len_bound(ls);
    lemma_lines_no_newline(cleandoc_text(raw));
    assert forall|i: int| 0 <= i < rest.len() implies has_no_newline(#[trigger] rest[i]) by {
        assert(rest[i] == ls[i + title_len(ls) + 1]);
    }
    lemma_split_keeps_every_line(rest);
}


// ----- a field's continuation lines -----

/// Some line of `ps` is not blank.
pub open spec fn any_nonblank(ps: Seq<Seq<char>>) -> bool {
    exists|i: int| 0 <= i < ps.len() && !is_blank(#[trigger] ps[i])
}

/// Wherever text stands both before and after the joint between two pieces, the piece
/// before the joint ends in a character other than whitespace.
pub open spec fn joints_solid(ps: Seq<Seq<char>>) -> bool {
    forall|j: int|
        0 <= j < ps.len() - 1 ==> (any_nonblank(ps.take(j + 1)) && any_nonblank(ps.skip(j + 1))
            ==> ends_solid(#[trigger] ps[j]))
}

/// The text after the first line's colon, trimmed, then the lines that follow it.
pub open spec fn field_pieces(ls: Seq<Seq<char>>) -> Seq<Seq<char>> {
    match colon_pos(ls[0]) {
        Some(c) => seq![trim(ls[0].skip(c as int + 1))] + ls.skip(1),
        None => ls,
    }
}

pub open spec fn field_key(ls: Seq<Seq<char>>) -> Seq<char> {
    match colon_pos(ls[0]) {
        Some(c) => trim(ls[0].take(c as int)),
        None => Seq::empty(),
    }
}

proof fn lemma_join_blank(qs: Seq<Seq<char>>)
    ensures
        is_blank(join(qs, seq!['\n'])) <==> !any_nonblank(qs),
    decreases qs.len(),
{
    let nl = seq!['\n'];
    assert(is_blank(nl)) by {
        assert(nl[0] == '\n');
    }
    if qs.len() == 0 {
        assert(join(qs, nl) =~= Seq::<char>::empty());
    } else if qs.len() == 1 {
        if !is_blank(qs[0]) {
            assert(any_nonblank(qs));
        }
    } else {
        let prev = qs.drop_last();
        lemma_join_blank(prev);
        lemma_blank_concat(join(prev, nl), nl);
        lemma_blank_concat(join(prev, nl) + nl, qs.last());
        if any_nonblank(prev) {
            let i = choose|i: int| 0 <= i < prev.len() && !is_blank(#[trigger] prev[i]);
            assert(qs[i] == prev[i]);
        }
        if !is_blank(qs.last()) {
            assert(!is_blank(qs[qs.len() - 1]));
        }
        if any_nonblank(qs) {
            let i = choose|i: int| 0 <= i < qs.len() && !is_blank(#[trigger] qs[i]);
            if i < qs.len() - 1 {
                assert(prev[i] == qs[i]);
            }
        }
    }
}

proof fn lemma_join_ends(qs: Seq<Seq<char>>)
    requires
        qs.len() > 0,
        ends_solid(qs.last()),
    ensures
        ends_solid(join(qs, seq!['\n'])),
{
    let nl = seq!['\n'];
    if qs.len() > 1 {
        let j = join(qs.drop_last(), nl) + nl + qs.last();
        assert(j.last() == qs.last().last());
    }
}

proof fn lemma_field_scan_prefix(text: Seq<char>, m: int)
    requires
        1 <= m <= lines_of(text).len(),
        colon_pos(lines_of(text)[0]) is Some,
        forall|i: int|
            1 <= i < lines_of(text).len() ==> colon_pos(#[trigger] lines_of(text)[i]) is None,
        joints_solid(field_pieces(lines_of(text))),
    ensures
        field_scan(lines_of(text).take(m)) == (
            Seq::<FieldModel>::empty(),
            Some(
                FieldModel {
                    key: field_key(lines_of(text)),
                    description: trim(join(field_pieces(lines_of(text)).take(m), seq!['\n'])),
                },
            ),
        ),
    decreases m,
{
    let ls = lines_of(text);
    let ps = field_pieces(ls);
    let key = field_key(ls);
    let nl = seq!['\n'];
    assert(ps.len() == ls.len());
    if m == 1 {
        assert(ls.take(1).drop_last() =~= Seq::<Seq<char>>::empty());
        assert(ls.take(1).last() == ls[0]);
        assert(field_scan(Seq::<Seq<char>>::empty()) == (Seq::<FieldModel>::empty(), None::<FieldModel>));
        assert(ps.take(1) =~= seq![ps[0]]);
        assert(join(ps.take(1), nl) == ps[0]);
        lemma_trim_idempotent(ls[0].skip(colon_pos(ls[0])->Some_0 as int + 1));
    } else {
        let k = m - 1;
        lemma_field_scan_prefix(text, k);
        let jk = join(ps.take(k), nl);
        assert(ls.take(m).drop_last() =~= ls.take(k));
        assert(ls.take(m).last() == ls[k]);
        assert(colon_pos(ls[k]) is None);
        assert(ps[k] == ls[k]);
        assert(ps.take(m).drop_last() =~= ps.take(k));
        assert(join(ps.take(m), nl) == jk + nl + ps[k]);
        let j = k - 1;
        if any_nonblank(ps.take(j + 1)) && any_nonblank(ps.skip(j + 1)) {
            assert(ends_solid(ps[j]));
            assert(ps.take(k).last() == ps[j]);
            lemma_join_ends(ps.take(k));
        } else if !any_nonblank(ps.take(k)) {
            lemma_join_blank(ps.take(k));
        } else {
            if !is_blank(ps[k]) {
                assert(ps.skip(k)[0] == ps[k]);
                assert(any_nonblank(ps.skip(k)));
            }
        }
        lemma_trim_then_join(jk, ps[k]);
    }
}

/// For a section made of one `name: seed` line and continuation lines without a colon,
/// the one field read is `name`, trimmed, with the trimmed seed and the continuations
/// joined by newlines and trimmed as a whole; this holds wherever no whitespace ends a
/// continuation line that has text on both sides of it, which the line-by-line trimming
/// would remove.
pub proof fn lemma_field_round_trip(text: Seq<char>)
    requires
        lines_of(text).len() > 0,
        colon_pos(lines_of(text)[0]) is Some,
        forall|i: int|
            1 <= i < lines_of(text).len() ==> colon_pos(#[trigger] lines_of(text)[i]) is None,
        joints_solid(field_pieces(lines_of(text))),
    ensures
        fields_of(text) == seq![
            FieldModel {
                key: field_key(lines_of(text)),
                description: trim(join(field_pieces(lines_of(text)), seq!['\n'])),
            },
        ],
{
    let ls = lines_of(text);
    let ps = field_pieces(ls);
    lemma_field_scan_prefix(text, ls.len() as int);
    assert(ls.take(ls.len() as int) =~= ls);
    assert(ps.take(ps.len() as int) =~= ps);
    assert(fields_of(text) =~= seq![
        FieldModel { key: field_key(ls), description: trim(join(ps, seq!['\n'])) },
    ]);
}


/// One `name: seed` line, then continuation lines without a colon, with no whitespace
/// ending a continuation line that has text on both sides of it.
pub open spec fn single_field_shape(ls: Seq<Seq<char>>) -> bool {
    &&& ls.len() > 0
    &&& colon_pos(ls[0]) is Some
    &&& forall|i: int| 1 <= i < ls.len() ==> colon_pos(#[trigger] ls[i]) is None
    &&& joints_solid(field_pieces(ls))
}

/// The one field of such a section: the trimmed name, and the trimmed seed and the
/// continuation lines joined by newlines, trimmed as a whole.
pub open spec fn single_field(ls: Seq<Seq<char>>) -> FieldModel {
    FieldModel { key: field_key(ls), description: trim(join(field_pieces(ls), seq!['\n'])) }
}

proof fn lemma_single_field(text: Seq<char>)
    requires
        single_field_shape(lines_of(text)),
    ensures
        fields_of(text) == seq![single_field(lines_of(text))],
        fields_of(text).map_values(|f: FieldModel| field_argument(f)) == seq![
            field_argument(single_field(lines_of(text))),
        ],
        fields_of(text).map_values(|f: FieldModel| field_raises(f)) == seq![
            field_raises(single_field(lines_of(text))),
        ],
{
    lemma_field_round_trip(text);
    assert(fields_of(text).map_values(|f: FieldModel| field_argument(f)) =~= seq![
        field_argument(single_field(lines_of(text))),
    ]);
    assert(fields_of(text).map_values(|f: FieldModel| field_raises(f)) =~= seq![
        field_raises(single_field(lines_of(text))),
    ]);
}

} // verus!
