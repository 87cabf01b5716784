//! "Open with": desktop entries, MIME matching, application discovery and
//! launch planning.
//!
//! Everything here computes on values that the caller has read: the text of
//! desktop files, the output of `xdg-mime`, environment variables and the
//! answers to "does this file exist".

use vstd::prelude::*;
use crate::paths::{extension, extension_of, join, path_join};
use crate::text::{
    ascii_lower_seq, ascii_lowercase, chars_of, copy_string, has_prefix, lemma_split_on_concat,
    same_chars, strip_end, strip_start, ws_pred, split_chars, split_on,
    split_words, starts_with, string_of, trim, trim_char, trim_matching, trim_ws, views, words,
    lemma_split_on_nonempty, lowercase,
};

verus! {

/// An application icon file, told apart by its format.
#[derive(Clone, Debug)]
pub enum AppIcon {
    Raster(String),
    Svg(String),
}

/// The model of an [`AppIcon`]: its kind and the characters of its path.
pub enum IconSpec {
    Raster(Seq<char>),
    Svg(Seq<char>),
}

impl View for AppIcon {
    type V = IconSpec;

    open spec fn view(&self) -> IconSpec {
        match self {
            AppIcon::Raster(p) => IconSpec::Raster(p@),
            AppIcon::Svg(p) => IconSpec::Svg(p@),
        }
    }
}

/// An application that can open a file.
#[derive(Clone, Debug)]
pub struct DesktopApp {
    pub name: String,
    pub command: String,
    pub icon: Option<AppIcon>,
    pub terminal: bool,
}

/// What a desktop file declares about its application, before its icon
/// name is looked up on disk.
#[derive(Clone, Debug)]
pub struct DesktopEntry {
    pub name: String,
    pub command: String,
    pub icon_name: Option<String>,
    pub terminal: bool,
}

/// The model of a [`DesktopEntry`].
pub struct EntrySpec {
    pub name: Seq<char>,
    pub command: Seq<char>,
    pub icon_name: Option<Seq<char>>,
    pub terminal: bool,
}

impl View for DesktopEntry {
    type V = EntrySpec;

    open spec fn view(&self) -> EntrySpec {
        EntrySpec {
            name: self.name@,
            command: self.command@,
            icon_name: match self.icon_name {
                Some(s) => Some(s@),
                None => None,
            },
            terminal: self.terminal,
        }
    }
}

/// A MIME pattern from a desktop file matches `mime` when it is equal to it,
/// or when it has the form `type/*` and `type` is the part of `mime` before
/// its first `/`.
pub open spec fn mime_matches_spec(pattern: Seq<char>, mime: Seq<char>) -> bool {
    ||| pattern == mime
    ||| {
        &&& pattern.len() >= 2
        &&& pattern[pattern.len() - 2] == '/'
        &&& pattern[pattern.len() - 1] == '*'
        &&& split_on(mime, '/')[0] == pattern.take(pattern.len() - 2)
    }
}

fn mime_matches_chars(pattern: &Vec<char>, mime: &Vec<char>) -> (b: bool)
    ensures
        b == mime_matches_spec(pattern@, mime@),
{
    if same_chars(pattern, mime) {
        return true;
    }
    let n = pattern.len();
    if n >= 2 && pattern[n - 2] == '/' && pattern[n - 1] == '*' {
        let segments = split_chars(mime, '/');
        proof {
            lemma_split_on_nonempty(mime@, '/');
        }
        assert(views(segments@)[0] == segments@[0]@);
        let prefix = crate::text::slice_chars(pattern, 0, n - 2);
        assert(prefix@ =~= pattern@.take(n - 2));
        same_chars(&segments[0], &prefix)
    } else {
        false
    }
}

/// Whether the desktop-file MIME pattern `pattern` covers `mime`.
pub fn mime_matches(pattern: &str, mime: &str) -> (b: bool)
    ensures
        b == mime_matches_spec(pattern@, mime@),
{
    let p = chars_of(pattern);
    let m = chars_of(mime);
    mime_matches_chars(&p, &m)
}

/// The first word that does not start with `%` (field codes such as `%f`
/// are not programs).
pub open spec fn first_program_word(ws: Seq<Seq<char>>) -> Option<Seq<char>>
    decreases ws.len(),
{
    if ws.len() == 0 {
        None
    } else if has_prefix(ws[0], seq!['%']) {
        first_program_word(ws.drop_first())
    } else {
        Some(ws[0])
    }
}

/// The program an `Exec=` value runs: its first whitespace-separated word
/// that is not a field code, without surrounding double quotes.
pub open spec fn exec_binary_spec(exec: Seq<char>) -> Option<Seq<char>> {
    match first_program_word(words(exec)) {
        Some(w) => Some(trim_char(w, '"')),
        None => None,
    }
}

fn exec_binary_chars(exec: &Vec<char>) -> (r: Option<Vec<char>>)
    ensures
        match r {
            Some(v) => exec_binary_spec(exec@) == Some(v@),
            None => exec_binary_spec(exec@) is None,
        },
{
    let ws = split_words(exec);
    let ghost wv = views(ws@);
    let percent = vec!['%'];
    let n = ws.len();
    let mut i: usize = 0;
    assert(wv.skip(0) =~= wv);
    while i < n
        invariant
            n == ws.len(),
            i <= n,
            wv == views(ws@),
            wv == words(exec@),
            percent@ == seq!['%'],
            first_program_word(wv) == first_program_word(wv.skip(i as int)),
        decreases n - i,
    {
        assert(wv.skip(i as int)[0] == ws@[i as int]@);
        if !starts_with(&ws[i], &percent) {
            assert(first_program_word(wv.skip(i as int)) == Some(ws@[i as int]@));
            let t = trim_matching(&ws[i], '"');
            assert(exec_binary_spec(exec@) == Some(trim_char(ws@[i as int]@, '"')));
            return Some(t);
        }
        assert(wv.skip(i as int).drop_first() =~= wv.skip(i + 1));
        i = i + 1;
    }
    assert(wv.skip(n as int) =~= Seq::<Seq<char>>::empty());
    None
}

/// The program named by the `Exec=` value `exec`.
pub fn exec_binary(exec: &str) -> (r: Option<String>)
    ensures
        match r {
            Some(s) => exec_binary_spec(exec@) == Some(s@),
            None => exec_binary_spec(exec@) is None,
        },
{
    let e = chars_of(exec);
    match exec_binary_chars(&e) {
        Some(v) => Some(string_of(&v)),
        None => None,
    }
}

/// The pieces of `ps` that are not empty, in order.
pub open spec fn nonempty_pieces(ps: Seq<Seq<char>>) -> Seq<Seq<char>>
    decreases ps.len(),
{
    if ps.len() == 0 {
        Seq::empty()
    } else if ps.last().len() > 0 {
        nonempty_pieces(ps.drop_last()).push(ps.last())
    } else {
        nonempty_pieces(ps.drop_last())
    }
}

pub open spec fn section_header() -> Seq<char> {
    seq!['[', 'D', 'e', 's', 'k', 't', 'o', 'p', ' ', 'E', 'n', 't', 'r', 'y', ']']
}

pub open spec fn name_key() -> Seq<char> {
    seq!['N', 'a', 'm', 'e', '=']
}

pub open spec fn exec_key() -> Seq<char> {
    seq!['E', 'x', 'e', 'c', '=']
}

pub open spec fn icon_key() -> Seq<char> {
    seq!['I', 'c', 'o', 'n', '=']
}

pub open spec fn mime_key() -> Seq<char> {
    seq!['M', 'i', 'm', 'e', 'T', 'y', 'p', 'e', '=']
}

pub open spec fn no_display_line() -> Seq<char> {
    seq!['N', 'o', 'D', 'i', 's', 'p', 'l', 'a', 'y', '=', 't', 'r', 'u', 'e']
}

pub open spec fn hidden_line() -> Seq<char> {
    seq!['H', 'i', 'd', 'd', 'e', 'n', '=', 't', 'r', 'u', 'e']
}

pub open spec fn terminal_line() -> Seq<char> {
    seq!['T', 'e', 'r', 'm', 'i', 'n', 'a', 'l', '=', 't', 'r', 'u', 'e']
}

/// What has been read of a desktop file so far.
pub struct ParseState {
    pub in_section: bool,
    pub name: Option<Seq<char>>,
    pub exec_value: Option<Seq<char>>,
    pub icon: Option<Seq<char>>,
    pub mime_types: Seq<Seq<char>>,
    pub no_display: bool,
    pub hidden: bool,
    pub terminal: bool,
}

pub open spec fn initial_parse_state() -> ParseState {
    ParseState {
        in_section: false,
        name: None,
        exec_value: None,
        icon: None,
        mime_types: Seq::empty(),
        no_display: false,
        hidden: false,
        terminal: false,
    }
}

/// Reading one line: a `[...]` header opens or closes the `[Desktop Entry]`
/// group; inside it the first `Name=`, the last `Exec=` and `Icon=`, every
/// `MimeType=` list and the three `...=true` flags are kept.
pub open spec fn parse_step(st: ParseState, raw: Seq<char>) -> ParseState {
    let line = trim(raw);
    if has_prefix(line, seq!['[']) {
        ParseState { in_section: line == section_header(), ..st }
    } else if !st.in_section {
        st
    } else if has_prefix(line, name_key()) {
        if st.name is None {
            ParseState { name: Some(line.skip(5)), ..st }
        } else {
            st
        }
    } else if has_prefix(line, exec_key()) {
        ParseState { exec_value: Some(line.skip(5)), ..st }
    } else if has_prefix(line, icon_key()) {
        ParseState { icon: Some(line.skip(5)), ..st }
    } else if has_prefix(line, mime_key()) {
        ParseState {
            mime_types: st.mime_types + nonempty_pieces(split_on(line.skip(9), ';')),
            ..st
        }
    } else if line == no_display_line() {
        ParseState { no_display: true, ..st }
    } else if line == hidden_line() {
        ParseState { hidden: true, ..st }
    } else if line == terminal_line() {
        ParseState { terminal: true, ..st }
    } else {
        st
    }
}

/// The state after reading `lines` in order.
pub open spec fn parse_lines(lines: Seq<Seq<char>>) -> ParseState
    decreases lines.len(),
{
    if lines.len() == 0 {
        initial_parse_state()
    } else {
        parse_step(parse_lines(lines.drop_last()), lines.last())
    }
}

/// The lines of a text (`str::lines`): the pieces between `\n`, without a
/// final empty piece. A `\r` before the `\n` stays on its line here; every
/// line is trimmed before it is read, which removes it.
pub open spec fn text_lines(s: Seq<char>) -> Seq<Seq<char>> {
    let pieces = split_on(s, '\n');
    if pieces.last().len() == 0 {
        pieces.drop_last()
    } else {
        pieces
    }
}

/// The entry a desktop file declares for `mime`: none when it is hidden or
/// not displayed, when none of its MIME patterns covers `mime`, when it has
/// no name or no `Exec=`, or when the `Exec=` value names no program.
pub open spec fn parse_desktop_entry_spec(contents: Seq<char>, mime: Seq<char>) -> Option<EntrySpec> {
    let st = parse_lines(text_lines(contents));
    if st.no_display || st.hidden {
        None
    } else if !(exists|i: int|
        0 <= i < st.mime_types.len() && mime_matches_spec(#[trigger] st.mime_types[i], mime)) {
        None
    } else {
        match (st.name, st.exec_value) {
            (Some(name), Some(value)) => match exec_binary_spec(value) {
                Some(command) => Some(
                    EntrySpec { name, command, icon_name: st.icon, terminal: st.terminal },
                ),
                None => None,
            },
            _ => None,
        }
    }
}

pub open spec fn opt_chars(o: Option<Vec<char>>) -> Option<Seq<char>> {
    match o {
        Some(v) => Some(v@),
        None => None,
    }
}

/// The running state of the reader, on character vectors.
struct Scan {
    in_section: bool,
    name: Option<Vec<char>>,
    exec_value: Option<Vec<char>>,
    icon: Option<Vec<char>>,
    mime_types: Vec<Vec<char>>,
    no_display: bool,
    hidden: bool,
    terminal: bool,
}

impl Scan {
    spec fn state(&self) -> ParseState {
        ParseState {
            in_section: self.in_section,
            name: opt_chars(self.name),
            exec_value: opt_chars(self.exec_value),
            icon: opt_chars(self.icon),
            mime_types: views(self.mime_types@),
            no_display: self.no_display,
            hidden: self.hidden,
            terminal: self.terminal,
        }
    }
}

fn append_nonempty(out: &mut Vec<Vec<char>>, pieces: Vec<Vec<char>>)
    ensures
        views(final(out)@) == views(old(out)@) + nonempty_pieces(views(pieces@)),
{
    let ghost start = views(out@);
    let ghost pv = views(pieces@);
    let mut pieces = pieces;
    let mut rest: Vec<Vec<char>> = Vec::new();
    // Take the pieces from the back, then put the kept ones on in order.
    let n = pieces.len();
    let mut k = n;
    assert(pv.take(n as int) =~= pv);
    assert(views(rest@).reverse() =~= Seq::<Seq<char>>::empty());
    assert(nonempty_pieces(pv) + Seq::<Seq<char>>::empty() =~= nonempty_pieces(pv));
    while k > 0
        invariant
            k <= n,
            pieces@.len() == k,
            views(pieces@) == pv.take(k as int),
            pv.len() == n,
            nonempty_pieces(pv) == nonempty_pieces(pv.take(k as int)) + views(rest@).reverse(),
            views(out@) == start,
        decreases k,
    {
        let ghost before = views(pieces@);
        let piece = pieces.pop().unwrap();
        assert(views(pieces@) =~= before.drop_last());
        assert(pv.take(k as int).drop_last() =~= pv.take(k - 1));
        if piece.len() > 0 {
            let ghost rv = views(rest@);
            rest.push(piece);
            assert(views(rest@) =~= rv.push(before.last()));
            assert(views(rest@).reverse() =~= seq![before.last()] + rv.reverse());
        }
        k = k - 1;
    }
    assert(pv.take(0) =~= Seq::<Seq<char>>::empty());
    while rest.len() > 0
        invariant
            views(out@) + views(rest@).reverse() == start + nonempty_pieces(pv),
        decreases rest.len(),
    {
        let ghost rv = views(rest@);
        let ghost ov = views(out@);
        let piece = rest.pop().unwrap();
        assert(views(rest@) =~= rv.drop_last());
        out.push(piece);
        assert(views(out@) =~= ov.push(rv.last()));
        assert(rv.reverse() =~= seq![rv.last()] + rv.drop_last().reverse());
        assert(views(out@) + views(rest@).reverse() =~= ov + rv.reverse());
    }
    assert(views(rest@).reverse() =~= Seq::<Seq<char>>::empty());
    assert(views(out@) =~= start + nonempty_pieces(pv));
}

fn section_header_chars() -> (r: Vec<char>)
    ensures
        r@ == section_header(),
{
    vec!['[', 'D', 'e', 's', 'k', 't', 'o', 'p', ' ', 'E', 'n', 't', 'r', 'y', ']']
}

fn name_key_chars() -> (r: Vec<char>)
    ensures
        r@ == name_key(),
{
    vec!['N', 'a', 'm', 'e', '=']
}

fn exec_key_chars() -> (r: Vec<char>)
    ensures
        r@ == exec_key(),
{
    vec!['E', 'x', 'e', 'c', '=']
}

fn icon_key_chars() -> (r: Vec<char>)
    ensures
        r@ == icon_key(),
{
    vec!['I', 'c', 'o', 'n', '=']
}

fn mime_key_chars() -> (r: Vec<char>)
    ensures
        r@ == mime_key(),
{
    vec!['M', 'i', 'm', 'e', 'T', 'y', 'p', 'e', '=']
}

fn no_display_chars() -> (r: Vec<char>)
    ensures
        r@ == no_display_line(),
{
    vec!['N', 'o', 'D', 'i', 's', 'p', 'l', 'a', 'y', '=', 't', 'r', 'u', 'e']
}

fn hidden_chars() -> (r: Vec<char>)
    ensures
        r@ == hidden_line(),
{
    vec!['H', 'i', 'd', 'd', 'e', 'n', '=', 't', 'r', 'u', 'e']
}

fn terminal_chars() -> (r: Vec<char>)
    ensures
        r@ == terminal_line(),
{
    vec!['T', 'e', 'r', 'm', 'i', 'n', 'a', 'l', '=', 't', 'r', 'u', 'e']
}

fn bracket_chars() -> (r: Vec<char>)
    ensures
        r@ == seq!['['],
{
    vec!['[']
}

fn scan_line(st: &mut Scan, raw: &Vec<char>)
    ensures
        final(st).state() == parse_step(old(st).state(), raw@),
{
    let line = trim_ws(raw);
    let bracket = bracket_chars();
    if starts_with(&line, &bracket) {
        let header = section_header_chars();
        st.in_section = same_chars(&line, &header);
        return;
    }
    if !st.in_section {
        return;
    }
    let name_key = name_key_chars();
    let exec_key = exec_key_chars();
    let icon_key = icon_key_chars();
    let mime_key = mime_key_chars();
    if starts_with(&line, &name_key) {
        if st.name.is_none() {
            st.name = Some(crate::text::slice_chars(&line, 5, line.len()));
            assert(opt_chars(st.name) == Some(line@.skip(5)));
        }
    } else if starts_with(&line, &exec_key) {
        st.exec_value = Some(crate::text::slice_chars(&line, 5, line.len()));
        assert(opt_chars(st.exec_value) == Some(line@.skip(5)));
    } else if starts_with(&line, &icon_key) {
        st.icon = Some(crate::text::slice_chars(&line, 5, line.len()));
        assert(opt_chars(st.icon) == Some(line@.skip(5)));
    } else if starts_with(&line, &mime_key) {
        let value = crate::text::slice_chars(&line, 9, line.len());
        assert(value@ =~= line@.skip(9));
        let pieces = split_chars(&value, ';');
        append_nonempty(&mut st.mime_types, pieces);
    } else if same_chars(&line, &no_display_chars()) {
        st.no_display = true;
    } else if same_chars(&line, &hidden_chars()) {
        st.hidden = true;
    } else if same_chars(&line, &terminal_chars()) {
        st.terminal = true;
    }
}

fn any_mime_matches(patterns: &Vec<Vec<char>>, mime: &Vec<char>) -> (b: bool)
    ensures
        b == exists|i: int|
            0 <= i < views(patterns@).len() && mime_matches_spec(
                #[trigger] views(patterns@)[i],
                mime@,
            ),
{
    let ghost pv = views(patterns@);
    let n = patterns.len();
    for i in 0..n
        invariant
            n == patterns.len(),
            pv == views(patterns@),
            forall|k: int| 0 <= k < i ==> !mime_matches_spec(#[trigger] pv[k], mime@),
    {
        if mime_matches_chars(&patterns[i], mime) {
            assert(mime_matches_spec(pv[i as int], mime@));
            return true;
        }
    }
    false
}

fn parse_entry_chars(contents: &Vec<char>, mime: &Vec<char>) -> (r: Option<DesktopEntry>)
    ensures
        match r {
            Some(e) => parse_desktop_entry_spec(contents@, mime@) == Some(e@),
            None => parse_desktop_entry_spec(contents@, mime@) is None,
        },
{
    let pieces = split_chars(contents, '\n');
    let ghost pv = views(pieces@);
    proof {
        lemma_split_on_nonempty(contents@, '\n');
    }
    let mut n = pieces.len();
    if pieces[n - 1].len() == 0 {
        n = n - 1;
    }
    let ghost lines = text_lines(contents@);
    assert(lines =~= pv.take(n as int));
    let mut st = Scan {
        in_section: false,
        name: None,
        exec_value: None,
        icon: None,
        mime_types: Vec::new(),
        no_display: false,
        hidden: false,
        terminal: false,
    };
    assert(views(st.mime_types@) =~= Seq::<Seq<char>>::empty());
    assert(lines.take(0) =~= Seq::<Seq<char>>::empty());
    assert(st.state() == parse_lines(lines.take(0)));
    for i in 0..n
        invariant
            n <= pieces.len(),
            pv == views(pieces@),
            lines == pv.take(n as int),
            st.state() == parse_lines(lines.take(i as int)),
    {
        scan_line(&mut st, &pieces[i]);
        assert(lines.take(i + 1).drop_last() =~= lines.take(i as int));
    }
    assert(lines.take(n as int) =~= lines);
    let ghost fin = st.state();
    assert(fin == parse_lines(text_lines(contents@)));
    if st.no_display || st.hidden {
        return None;
    }
    if !any_mime_matches(&st.mime_types, mime) {
        return None;
    }
    proof {
        let i = choose|i: int|
            0 <= i < fin.mime_types.len() && mime_matches_spec(
                #[trigger] fin.mime_types[i],
                mime@,
            );
        assert(mime_matches_spec(fin.mime_types[i], mime@));
    }
    let name = match st.name {
        Some(v) => v,
        None => return None,
    };
    let value = match st.exec_value {
        Some(v) => v,
        None => return None,
    };
    let command = match exec_binary_chars(&value) {
        Some(v) => v,
        None => return None,
    };
    let icon_name = match st.icon {
        Some(v) => Some(string_of(&v)),
        None => None,
    };
    let entry = DesktopEntry {
        name: string_of(&name),
        command: string_of(&command),
        icon_name,
        terminal: st.terminal,
    };
    assert(entry@.icon_name == fin.icon);
    assert(fin.name == Some(name@));
    assert(fin.exec_value == Some(value@));
    Some(entry)
}

/// Reads the text of a desktop file and returns what it declares for
/// `mime` (see `parse_desktop_entry_spec`).
pub fn parse_desktop_entry(contents: &str, mime: &str) -> (r: Option<DesktopEntry>)
    ensures
        match r {
            Some(e) => parse_desktop_entry_spec(contents@, mime@) == Some(e@),
            None => parse_desktop_entry_spec(contents@, mime@) is None,
        },
{
    let c = chars_of(contents);
    let m = chars_of(mime);
    parse_entry_chars(&c, &m)
}

/// `eq_ignore_ascii_case` with `"svg"`.
pub open spec fn is_svg_extension(e: Seq<char>) -> bool {
    ascii_lower_seq(e) == "svg"@
}

/// An icon file is an SVG when its extension is `svg` in any ASCII case;
/// every other file is a raster image.
pub open spec fn classify_icon_spec(path: Seq<char>) -> IconSpec {
    match extension(path) {
        Some(e) => if is_svg_extension(e) {
            IconSpec::Svg(path)
        } else {
            IconSpec::Raster(path)
        },
        None => IconSpec::Raster(path),
    }
}

fn classify_icon_chars(path: &Vec<char>) -> (icon: AppIcon)
    ensures
        icon@ == classify_icon_spec(path@),
{
    let s = string_of(path);
    match extension_of(path) {
        Some(e) => {
            let lower = ascii_lowercase(&e);
            let svg = chars_of("svg");
            if same_chars(&lower, &svg) {
                AppIcon::Svg(s)
            } else {
                AppIcon::Raster(s)
            }
        },
        None => AppIcon::Raster(s),
    }
}

/// Tells an icon file's kind from its extension.
pub fn classify_icon_file(path: String) -> (icon: AppIcon)
    ensures
        icon@ == classify_icon_spec(path@),
{
    let p = chars_of(path.as_str());
    classify_icon_chars(&p)
}

/// The icon themes searched, in order.
pub open spec fn icon_themes() -> Seq<Seq<char>> {
    seq!["hicolor"@, "Adwaita"@, "breeze"@, "Papirus"@, "Papirus-Dark"@]
}

/// The icon sizes searched, in order.
pub open spec fn icon_sizes() -> Seq<Seq<char>> {
    seq![
        "128x128"@,
        "96x96"@,
        "64x64"@,
        "48x48"@,
        "256x256"@,
        "512x512"@,
        "32x32"@,
        "22x22"@,
        "16x16"@,
    ]
}

/// The icon directories searched: the user's two (when `HOME` is set), then
/// the system's two.
pub open spec fn icon_dirs(home: Option<Seq<char>>) -> Seq<Seq<char>> {
    let system = seq!["/usr/share/icons"@, "/usr/local/share/icons"@];
    match home {
        Some(h) => seq![path_join(h, ".local/share/icons"@), path_join(h, ".icons"@)] + system,
        None => system,
    }
}

/// `<base>/<theme>/<size>/apps/<file>` for every size, in size order.
pub open spec fn sized_paths(base: Seq<char>, theme: Seq<char>, file: Seq<char>) -> Seq<Seq<char>> {
    icon_sizes().map_values(
        |size: Seq<char>|
            path_join(path_join(path_join(path_join(base, theme), size), "apps"@), file),
    )
}

/// `<base>/<theme>/scalable/apps/<file>`.
pub open spec fn scalable_path(base: Seq<char>, theme: Seq<char>, file: Seq<char>) -> Seq<char> {
    path_join(path_join(path_join(base, theme), "scalable/apps"@), file)
}

/// The paths tried in one theme: the scalable one first when looking for
/// SVG files, then one per size.
pub open spec fn theme_paths(base: Seq<char>, theme: Seq<char>, file: Seq<char>, svg: bool) -> Seq<
    Seq<char>,
> {
    if svg {
        seq![scalable_path(base, theme, file)] + sized_paths(base, theme, file)
    } else {
        sized_paths(base, theme, file)
    }
}

/// The paths tried under one icon directory, theme by theme.
pub open spec fn base_paths(base: Seq<char>, file: Seq<char>, svg: bool) -> Seq<Seq<char>> {
    icon_themes().map_values(|t: Seq<char>| theme_paths(base, t, file, svg)).flatten_alt()
}

/// The paths tried under every directory of `dirs`, directory by directory.
pub open spec fn dirs_paths(dirs: Seq<Seq<char>>, file: Seq<char>, svg: bool) -> Seq<Seq<char>> {
    dirs.map_values(|b: Seq<char>| base_paths(b, file, svg)).flatten_alt()
}

/// `/usr/share/pixmaps/<name>.png`, then `.xpm`.
pub open spec fn pixmap_paths(name: Seq<char>) -> Seq<Seq<char>> {
    seq![
        path_join("/usr/share/pixmaps"@, name + ".png"@),
        path_join("/usr/share/pixmaps"@, name + ".xpm"@),
    ]
}

pub open spec fn rasters(ps: Seq<Seq<char>>) -> Seq<IconSpec> {
    ps.map_values(|p: Seq<char>| IconSpec::Raster(p))
}

pub open spec fn svgs(ps: Seq<Seq<char>>) -> Seq<IconSpec> {
    ps.map_values(|p: Seq<char>| IconSpec::Svg(p))
}

/// The files an icon name may refer to, in the order they are tried; the
/// first that exists is the icon. An empty name has none; an absolute name
/// is the file itself. Otherwise: themed PNGs, the pixmaps directory, then
/// themed SVGs.
pub open spec fn icon_candidates_spec(name: Seq<char>, home: Option<Seq<char>>) -> Seq<IconSpec> {
    if name.len() == 0 {
        Seq::empty()
    } else if name[0] == '/' {
        seq![classify_icon_spec(name)]
    } else {
        let dirs = icon_dirs(home);
        rasters(dirs_paths(dirs, name + ".png"@, false)) + rasters(pixmap_paths(name)) + svgs(
            dirs_paths(dirs, name + ".svg"@, true),
        )
    }
}

fn literal_list(items: &[&str]) -> (out: Vec<Vec<char>>)
    ensures
        views(out@) == items@.map_values(|s: &str| s@),
{
    let mut out: Vec<Vec<char>> = Vec::new();
    let n = items.len();
    for i in 0..n
        invariant
            n == items@.len(),
            views(out@) == items@.take(i as int).map_values(|s: &str| s@),
    {
        let ghost before = views(out@);
        let c = chars_of(items[i]);
        out.push(c);
        assert(views(out@) =~= before.push(items@[i as int]@));
        assert(items@.take(i + 1).map_values(|s: &str| s@) =~= items@.take(i as int).map_values(
            |s: &str| s@,
        ).push(items@[i as int]@));
    }
    assert(items@.take(n as int) =~= items@);
    out
}

fn themes_list() -> (out: Vec<Vec<char>>)
    ensures
        views(out@) == icon_themes(),
{
    let items: [&str; 5] = ["hicolor", "Adwaita", "breeze", "Papirus", "Papirus-Dark"];
    let out = literal_list(&items);
    assert(views(out@) =~= icon_themes());
    out
}

fn sizes_list() -> (out: Vec<Vec<char>>)
    ensures
        views(out@) == icon_sizes(),
{
    let items: [&str; 9] = [
        "128x128",
        "96x96",
        "64x64",
        "48x48",
        "256x256",
        "512x512",
        "32x32",
        "22x22",
        "16x16",
    ];
    let out = literal_list(&items);
    assert(views(out@) =~= icon_sizes());
    out
}

proof fn lemma_flatten_alt_take_step(s: Seq<Seq<Seq<char>>>, i: int)
    requires
        0 <= i < s.len(),
    ensures
        s.take(i + 1).flatten_alt() == s.take(i).flatten_alt() + s[i],
{
    assert(s.take(i + 1).drop_last() =~= s.take(i));
}

fn push_theme_paths(
    out: &mut Vec<Vec<char>>,
    base: &Vec<char>,
    theme: &Vec<char>,
    file: &Vec<char>,
    sizes: &Vec<Vec<char>>,
    svg: bool,
)
    requires
        views(sizes@) == icon_sizes(),
    ensures
        views(final(out)@) == views(old(out)@) + theme_paths(base@, theme@, file@, svg),
{
    let ghost start = views(out@);
    let bt = join(base, theme);
    if svg {
        let scal = chars_of("scalable/apps");
        let d = join(&bt, &scal);
        let p = join(&d, file);
        out.push(p);
        assert(views(out@) =~= start.push(scalable_path(base@, theme@, file@)));
    }
    let ghost mid = views(out@);
    let apps = chars_of("apps");
    let n = sizes.len();
    for k in 0..n
        invariant
            n == sizes.len(),
            views(sizes@) == icon_sizes(),
            bt@ == path_join(base@, theme@),
            apps@ == "apps"@,
            views(out@) == mid + sized_paths(base@, theme@, file@).take(k as int),
    {
        let ghost before = views(out@);
        let sz = join(&bt, &sizes[k]);
        let a = join(&sz, &apps);
        let p = join(&a, file);
        out.push(p);
        assert(views(sizes@)[k as int] == sizes@[k as int]@);
        assert(views(out@) =~= before.push(p@));
        assert(sized_paths(base@, theme@, file@).take(k + 1) =~= sized_paths(
            base@,
            theme@,
            file@,
        ).take(k as int).push(p@));
    }
    assert(sized_paths(base@, theme@, file@).take(n as int) =~= sized_paths(base@, theme@, file@));
    if svg {
        assert(views(out@) =~= start + theme_paths(base@, theme@, file@, svg));
    } else {
        assert(views(out@) =~= start + theme_paths(base@, theme@, file@, svg));
    }
}

fn push_base_paths(
    out: &mut Vec<Vec<char>>,
    base: &Vec<char>,
    file: &Vec<char>,
    themes: &Vec<Vec<char>>,
    sizes: &Vec<Vec<char>>,
    svg: bool,
)
    requires
        views(themes@) == icon_themes(),
        views(sizes@) == icon_sizes(),
    ensures
        views(final(out)@) == views(old(out)@) + base_paths(base@, file@, svg),
{
    let ghost start = views(out@);
    let ghost per = icon_themes().map_values(|t: Seq<char>| theme_paths(base@, t, file@, svg));
    let n = themes.len();
    assert(per.take(0).flatten_alt() =~= Seq::<Seq<char>>::empty());
    for k in 0..n
        invariant
            n == themes.len(),
            views(themes@) == icon_themes(),
            views(sizes@) == icon_sizes(),
            per == icon_themes().map_values(|t: Seq<char>| theme_paths(base@, t, file@, svg)),
            views(out@) == start + per.take(k as int).flatten_alt(),
    {
        push_theme_paths(out, base, &themes[k], file, sizes, svg);
        assert(views(themes@)[k as int] == themes@[k as int]@);
        proof {
            lemma_flatten_alt_take_step(per, k as int);
        }
        assert(start + per.take(k + 1).flatten_alt() =~= start + per.take(k as int).flatten_alt()
            + per[k as int]);
    }
    assert(per.take(n as int) =~= per);
}

fn push_dirs_paths(
    out: &mut Vec<Vec<char>>,
    dirs: &Vec<Vec<char>>,
    file: &Vec<char>,
    themes: &Vec<Vec<char>>,
    sizes: &Vec<Vec<char>>,
    svg: bool,
)
    requires
        views(themes@) == icon_themes(),
        views(sizes@) == icon_sizes(),
    ensures
        views(final(out)@) == views(old(out)@) + dirs_paths(views(dirs@), file@, svg),
{
    let ghost start = views(out@);
    let ghost dv = views(dirs@);
    let ghost per = dv.map_values(|b: Seq<char>| base_paths(b, file@, svg));
    let n = dirs.len();
    assert(per.take(0).flatten_alt() =~= Seq::<Seq<char>>::empty());
    for k in 0..n
        invariant
            n == dirs.len(),
            dv == views(dirs@),
            views(themes@) == icon_themes(),
            views(sizes@) == icon_sizes(),
            per == dv.map_values(|b: Seq<char>| base_paths(b, file@, svg)),
            views(out@) == start + per.take(k as int).flatten_alt(),
    {
        push_base_paths(out, &dirs[k], file, themes, sizes, svg);
        proof {
            lemma_flatten_alt_take_step(per, k as int);
        }
        assert(start + per.take(k + 1).flatten_alt() =~= start + per.take(k as int).flatten_alt()
            + per[k as int]);
    }
    assert(per.take(n as int) =~= per);
}

fn icon_dirs_list(home: &Option<Vec<char>>) -> (out: Vec<Vec<char>>)
    ensures
        views(out@) == icon_dirs(opt_chars(*home)),
{
    let mut out: Vec<Vec<char>> = Vec::new();
    match home {
        Some(h) => {
            out.push(join(h, &chars_of(".local/share/icons")));
            out.push(join(h, &chars_of(".icons")));
        },
        None => {},
    }
    out.push(chars_of("/usr/share/icons"));
    out.push(chars_of("/usr/local/share/icons"));
    assert(views(out@) =~= icon_dirs(opt_chars(*home)));
    out
}

fn concat_chars(a: &Vec<char>, b: &str) -> (out: Vec<char>)
    ensures
        out@ == a@ + b@,
{
    let mut out = crate::text::slice_chars(a, 0, a.len());
    let bc = chars_of(b);
    let n = bc.len();
    assert(out@ =~= a@ + bc@.take(0));
    for i in 0..n
        invariant
            n == bc.len(),
            out@ == a@ + bc@.take(i as int),
    {
        out.push(bc[i]);
        assert(a@ + bc@.take(i + 1) =~= (a@ + bc@.take(i as int)).push(bc@[i as int]));
    }
    assert(bc@.take(n as int) =~= bc@);
    out
}

/// The models of a sequence of icons.
pub open spec fn icon_views(s: Seq<AppIcon>) -> Seq<IconSpec> {
    s.map_values(|i: AppIcon| i@)
}

fn append_icons(out: &mut Vec<AppIcon>, paths: &Vec<Vec<char>>, svg: bool)
    ensures
        icon_views(final(out)@) == icon_views(old(out)@) + (if svg {
            svgs(views(paths@))
        } else {
            rasters(views(paths@))
        }),
{
    let ghost start = icon_views(out@);
    let ghost target = if svg {
        svgs(views(paths@))
    } else {
        rasters(views(paths@))
    };
    let n = paths.len();
    for i in 0..n
        invariant
            n == paths.len(),
            target == (if svg {
                svgs(views(paths@))
            } else {
                rasters(views(paths@))
            }),
            icon_views(out@) == start + target.take(i as int),
    {
        let ghost before = icon_views(out@);
        let p = string_of(&paths[i]);
        let icon = if svg {
            AppIcon::Svg(p)
        } else {
            AppIcon::Raster(p)
        };
        out.push(icon);
        assert(icon_views(out@) =~= before.push(icon@));
        assert(target.take(i + 1) =~= target.take(i as int).push(icon@));
    }
    assert(target.take(n as int) =~= target);
}

/// The files, in search order, that the icon name of a desktop entry may
/// refer to, given the value of `HOME`.
pub fn icon_candidates(icon_name: &str, home: Option<&str>) -> (out: Vec<AppIcon>)
    ensures
        icon_views(out@) == icon_candidates_spec(
            icon_name@,
            match home {
                Some(h) => Some(h@),
                None => None,
            },
        ),
{
    let name = chars_of(icon_name);
    let home_chars = match home {
        Some(h) => Some(chars_of(h)),
        None => None,
    };
    let ghost hv = opt_chars(home_chars);
    let mut out: Vec<AppIcon> = Vec::new();
    if name.len() == 0 {
        assert(icon_views(out@) =~= icon_candidates_spec(icon_name@, hv));
        return out;
    }
    if name[0] == '/' {
        out.push(classify_icon_chars(&name));
        assert(icon_views(out@) =~= icon_candidates_spec(icon_name@, hv));
        return out;
    }
    let dirs = icon_dirs_list(&home_chars);
    let themes = themes_list();
    let sizes = sizes_list();
    let png = concat_chars(&name, ".png");
    let svg = concat_chars(&name, ".svg");
    let mut raster_paths: Vec<Vec<char>> = Vec::new();
    push_dirs_paths(&mut raster_paths, &dirs, &png, &themes, &sizes, false);
    let mut pixmaps: Vec<Vec<char>> = Vec::new();
    let pixmap_dir = chars_of("/usr/share/pixmaps");
    pixmaps.push(join(&pixmap_dir, &png));
    pixmaps.push(join(&pixmap_dir, &concat_chars(&name, ".xpm")));
    let mut svg_paths: Vec<Vec<char>> = Vec::new();
    push_dirs_paths(&mut svg_paths, &dirs, &svg, &themes, &sizes, true);
    assert(views(raster_paths@) =~= dirs_paths(icon_dirs(hv), icon_name@ + ".png"@, false));
    assert(views(svg_paths@) =~= dirs_paths(icon_dirs(hv), icon_name@ + ".svg"@, true));
    assert(views(pixmaps@) =~= pixmap_paths(icon_name@));
    append_icons(&mut out, &raster_paths, false);
    append_icons(&mut out, &pixmaps, false);
    append_icons(&mut out, &svg_paths, true);
    assert(icon_views(out@) =~= icon_candidates_spec(icon_name@, hv));
    out
}

/// Index of the first `true` in `flags`.
pub open spec fn first_true(flags: Seq<bool>) -> Option<int>
    decreases flags.len(),
{
    if flags.len() == 0 {
        None
    } else if flags[0] {
        Some(0)
    } else {
        match first_true(flags.drop_first()) {
            Some(i) => Some(i + 1),
            None => None,
        }
    }
}

pub proof fn lemma_first_true(flags: Seq<bool>)
    ensures
        match first_true(flags) {
            Some(i) => 0 <= i < flags.len() && flags[i] && forall|k: int|
                0 <= k < i ==> !flags[k],
            None => forall|k: int| 0 <= k < flags.len() ==> !flags[k],
        },
    decreases flags.len(),
{
    if flags.len() > 0 {
        lemma_first_true(flags.drop_first());
        if !flags[0] {
            match first_true(flags.drop_first()) {
                Some(i) => {
                    assert forall|k: int| 0 <= k < i + 1 implies !flags[k] by {
                        if k > 0 {
                            assert(flags[k] == flags.drop_first()[k - 1]);
                        }
                    }
                },
                None => {
                    assert forall|k: int| 0 <= k < flags.len() implies !flags[k] by {
                        if k > 0 {
                            assert(flags[k] == flags.drop_first()[k - 1]);
                        }
                    }
                },
            }
        }
    }
}

/// The position of the first candidate that is available, given one answer
/// per candidate in search order.
pub fn first_available(available: &Vec<bool>) -> (r: Option<usize>)
    ensures
        match r {
            Some(i) => first_true(available@) == Some(i as int),
            None => first_true(available@) is None,
        },
        match r {
            Some(i) => i < available@.len() && available@[i as int] && forall|k: int|
                0 <= k < i ==> !available@[k],
            None => forall|k: int| 0 <= k < available@.len() ==> !available@[k],
        },
{
    proof {
        lemma_first_true(available@);
    }
    let n = available.len();
    let mut i: usize = 0;
    assert(available@.skip(0) =~= available@);
    while i < n
        invariant
            n == available.len(),
            i <= n,
            forall|k: int| 0 <= k < i ==> !available@[k],
            match first_true(available@.skip(i as int)) {
                Some(j) => first_true(available@) == Some(j + i),
                None => first_true(available@) is None,
            },
        decreases n - i,
    {
        if available[i] {
            return Some(i);
        }
        assert(available@.skip(i as int).drop_first() =~= available@.skip(i + 1));
        i = i + 1;
    }
    None
}

/// The number of candidates that have an answer.
pub open spec fn answered(candidates: int, answers: int) -> int {
    if candidates <= answers {
        candidates
    } else {
        answers
    }
}

/// The icon a desktop entry shows: the first candidate that exists.
/// `exists[i]` answers for `candidates[i]`; candidates without an answer are
/// not considered.
pub fn pick_icon(candidates: Vec<AppIcon>, exists: &Vec<bool>) -> (r: Option<AppIcon>)
    ensures
        match first_true(exists@.take(answered(candidates@.len() as int, exists@.len() as int))) {
            Some(i) => r is Some && r->0@ == candidates@[i]@,
            None => r is None,
        },
{
    let m = if candidates.len() <= exists.len() {
        candidates.len()
    } else {
        exists.len()
    };
    let mut answers: Vec<bool> = Vec::new();
    for i in 0..m
        invariant
            m <= exists.len(),
            answers@ == exists@.take(i as int),
    {
        answers.push(exists[i]);
        assert(answers@ =~= exists@.take(i + 1));
    }
    proof {
        lemma_first_true(answers@);
    }
    match first_available(&answers) {
        Some(i) => {
            let mut candidates = candidates;
            Some(candidates.swap_remove(i))
        },
        None => None,
    }
}

/// What a finished helper command produced: its exit code (none when it
/// was ended by a signal) and its standard output as text.
pub struct CommandOutput {
    pub status_code: Option<i32>,
    pub stdout: String,
}

/// The MIME type `xdg-mime query filetype` reports: its trimmed output, when
/// the command ran, exited with 0 and printed something.
pub open spec fn mime_type_spec(output: Option<(Option<i32>, Seq<char>)>) -> Option<Seq<char>> {
    match output {
        Some((code, out)) => if code != Some(0i32) || trim(out).len() == 0 {
            None
        } else {
            Some(trim(out))
        },
        None => None,
    }
}

pub open spec fn output_view(output: Option<&CommandOutput>) -> Option<(Option<i32>, Seq<char>)> {
    match output {
        Some(o) => Some((o.status_code, o.stdout@)),
        None => None,
    }
}

fn mime_type_chars(output: Option<&CommandOutput>) -> (r: Option<Vec<char>>)
    ensures
        opt_chars(r) == mime_type_spec(output_view(output)),
{
    match output {
        None => None,
        Some(o) => {
            if o.status_code != Some(0i32) {
                return None;
            }
            let text = chars_of(o.stdout.as_str());
            let t = trim_ws(&text);
            if t.len() == 0 {
                None
            } else {
                Some(t)
            }
        },
    }
}

/// The MIME type of a file, from the output of `xdg-mime query filetype`
/// (`None` when the command could not be run or timed out).
pub fn mime_type_from(output: Option<&CommandOutput>) -> (r: Option<String>)
    ensures
        match r {
            Some(m) => mime_type_spec(output_view(output)) == Some(m@),
            None => mime_type_spec(output_view(output)) is None,
        },
{
    match mime_type_chars(output) {
        Some(v) => Some(string_of(&v)),
        None => None,
    }
}

/// The entries that the readable files among `files` declare for `mime`, in
/// file order.
pub open spec fn parsed_entries(files: Seq<Option<Seq<char>>>, mime: Seq<char>) -> Seq<EntrySpec>
    decreases files.len(),
{
    if files.len() == 0 {
        Seq::empty()
    } else {
        let prev = parsed_entries(files.drop_last(), mime);
        match files.last() {
            Some(contents) => match parse_desktop_entry_spec(contents, mime) {
                Some(e) => prev.push(e),
                None => prev,
            },
            None => prev,
        }
    }
}

/// Keeps the first entry for each command.
pub open spec fn dedup_commands(es: Seq<EntrySpec>) -> Seq<EntrySpec>
    decreases es.len(),
{
    if es.len() == 0 {
        Seq::empty()
    } else {
        let prev = dedup_commands(es.drop_last());
        if exists|i: int| 0 <= i < prev.len() && (#[trigger] prev[i]).command == es.last().command {
            prev
        } else {
            prev.push(es.last())
        }
    }
}

/// Lexicographic order of character sequences by code point, which is the
/// order `String`'s `cmp` gives (UTF-8 preserves code point order).
pub open spec fn lex_less(a: Seq<char>, b: Seq<char>) -> bool
    decreases a.len(),
{
    if a.len() == 0 {
        b.len() > 0
    } else if b.len() == 0 {
        false
    } else if a[0] < b[0] {
        true
    } else if a[0] > b[0] {
        false
    } else {
        lex_less(a.drop_first(), b.drop_first())
    }
}

/// The sort key of an entry: its name, lowercased.
pub open spec fn sort_key(e: EntrySpec) -> Seq<char> {
    lowercase(e.name)
}

/// Where `x` goes in `sorted`: before the first entry whose key is greater.
pub open spec fn insert_position(sorted: Seq<EntrySpec>, x: EntrySpec) -> int
    decreases sorted.len(),
{
    if sorted.len() == 0 {
        0
    } else if lex_less(sort_key(x), sort_key(sorted[0])) {
        0
    } else {
        1 + insert_position(sorted.drop_first(), x)
    }
}

/// Entries ordered by `sort_key`, entries with equal keys kept in the
/// order they came in (a stable sort, built by insertion).
pub open spec fn sorted_by_name(es: Seq<EntrySpec>) -> Seq<EntrySpec>
    decreases es.len(),
{
    if es.len() == 0 {
        Seq::empty()
    } else {
        let s = sorted_by_name(es.drop_last());
        let p = insert_position(s, es.last());
        s.take(p).push(es.last()) + s.skip(p)
    }
}

/// The applications offered for a file: none when its MIME type is
/// unknown; otherwise the entries its desktop files declare for that type,
/// the first per command, sorted by lowercased name.
pub open spec fn discover_spec(output: Option<(Option<i32>, Seq<char>)>, files: Seq<Option<Seq<char>>>) -> Seq<EntrySpec> {
    match mime_type_spec(output) {
        Some(m) => sorted_by_name(dedup_commands(parsed_entries(files, m))),
        None => Seq::empty(),
    }
}

pub open spec fn files_view(files: Seq<Option<String>>) -> Seq<Option<Seq<char>>> {
    files.map_values(|f: Option<String>| match f {
        Some(s) => Some(s@),
        None => None,
    })
}

pub open spec fn entry_views(es: Seq<DesktopEntry>) -> Seq<EntrySpec> {
    es.map_values(|e: DesktopEntry| e@)
}

fn lex_less_chars(a: &Vec<char>, b: &Vec<char>) -> (r: bool)
    ensures
        r == lex_less(a@, b@),
{
    let mut i: usize = 0;
    assert(a@.skip(0) =~= a@);
    assert(b@.skip(0) =~= b@);
    while i < a.len() && i < b.len() && a[i] == b[i]
        invariant
            i <= a.len(),
            i <= b.len(),
            lex_less(a@, b@) == lex_less(a@.skip(i as int), b@.skip(i as int)),
        decreases a.len() - i,
    {
        assert(a@.skip(i as int).drop_first() =~= a@.skip(i + 1));
        assert(b@.skip(i as int).drop_first() =~= b@.skip(i + 1));
        i = i + 1;
    }
    if i == a.len() {
        assert(a@.skip(i as int).len() == 0);
        i < b.len()
    } else if i == b.len() {
        assert(b@.skip(i as int).len() == 0);
        false
    } else {
        assert(a@.skip(i as int)[0] == a@[i as int]);
        assert(b@.skip(i as int)[0] == b@[i as int]);
        a[i] < b[i]
    }
}

fn has_command(kept: &Vec<DesktopEntry>, command: &String) -> (b: bool)
    ensures
        b == exists|i: int|
            0 <= i < kept@.len() && (#[trigger] entry_views(kept@)[i]).command == command@,
{
    let n = kept.len();
    for i in 0..n
        invariant
            n == kept.len(),
            forall|k: int| 0 <= k < i ==> (#[trigger] entry_views(kept@)[k]).command != command@,
    {
        if kept[i].command == *command {
            assert(entry_views(kept@)[i as int].command == command@);
            return true;
        }
    }
    false
}

/// Finds where the entry with key `key` goes among `keys`.
fn find_position(keys: &Vec<Vec<char>>, key: &Vec<char>, Ghost(sorted): Ghost<Seq<EntrySpec>>, Ghost(x): Ghost<EntrySpec>) -> (p: usize)
    requires
        keys@.len() == sorted.len(),
        forall|k: int| 0 <= k < sorted.len() ==> (#[trigger] keys@[k])@ == sort_key(sorted[k]),
        key@ == sort_key(x),
    ensures
        p as int == insert_position(sorted, x),
        p <= keys.len(),
{
    let n = keys.len();
    let mut j: usize = 0;
    assert(sorted.skip(0) =~= sorted);
    while j < n && !lex_less_chars(key, &keys[j])
        invariant
            n == keys.len() == sorted.len(),
            j <= n,
            forall|k: int| 0 <= k < sorted.len() ==> (#[trigger] keys@[k])@ == sort_key(sorted[k]),
            key@ == sort_key(x),
            insert_position(sorted, x) == j + insert_position(sorted.skip(j as int), x),
        decreases n - j,
    {
        assert(sorted.skip(j as int)[0] == sorted[j as int]);
        assert(sorted.skip(j as int).drop_first() =~= sorted.skip(j + 1));
        j = j + 1;
    }
    if j < n {
        assert(sorted.skip(j as int)[0] == sorted[j as int]);
    }
    j
}

/// The applications that can open a file: `output` is what `xdg-mime query
/// filetype` printed for it, and `desktop_files` the texts of the
/// `*.desktop` files found under the application directories, in the order
/// they were found (`None` for one that could not be read).
pub fn discover_apps_for(output: Option<&CommandOutput>, desktop_files: &Vec<Option<String>>) -> (apps: Vec<DesktopEntry>)
    ensures
        entry_views(apps@) == discover_spec(output_view(output), files_view(desktop_files@)),
{
    let mime = match mime_type_chars(output) {
        Some(m) => string_of(&m),
        None => {
            let empty: Vec<DesktopEntry> = Vec::new();
            assert(entry_views(empty@) =~= Seq::<EntrySpec>::empty());
            return empty;
        },
    };
    let ghost m = mime@;
    let ghost fv = files_view(desktop_files@);
    // Parse every readable file, keeping the first entry per command.
    let mut kept: Vec<DesktopEntry> = Vec::new();
    let n = desktop_files.len();
    for i in 0..n
        invariant
            n == desktop_files.len(),
            fv == files_view(desktop_files@),
            m == mime@,
            entry_views(kept@) == dedup_commands(parsed_entries(fv.take(i as int), m)),
    {
        let ghost before = entry_views(kept@);
        let ghost ps = parsed_entries(fv.take(i as int), m);
        assert(fv.take(i + 1).drop_last() =~= fv.take(i as int));
        assert(fv.take(i + 1).last() == fv[i as int]);
        match &desktop_files[i] {
            Some(contents) => {
                match parse_desktop_entry(contents.as_str(), mime.as_str()) {
                    Some(e) => {
                        let ghost ev = e@;
                        assert(parsed_entries(fv.take(i + 1), m) == ps.push(ev));
                        assert(ps.push(ev).drop_last() =~= ps);
                        if !has_command(&kept, &e.command) {
                            kept.push(e);
                            assert(entry_views(kept@) =~= before.push(ev));
                        }
                    },
                    None => {},
                }
            },
            None => {},
        }
    }
    assert(fv.take(n as int) =~= fv);
    // Insertion sort by lowercased name; equal keys keep their order.
    let ghost unsorted = entry_views(kept@);
    let mut sorted: Vec<DesktopEntry> = Vec::new();
    let mut keys: Vec<Vec<char>> = Vec::new();
    let count = kept.len();
    let mut rest = kept;
    let mut pending: Vec<DesktopEntry> = Vec::new();
    // Reverse so that popping yields the entries in the order they came in.
    while rest.len() > 0
        invariant
            entry_views(rest@) + entry_views(pending@).reverse() == unsorted,
        decreases rest.len(),
    {
        let ghost rv = entry_views(rest@);
        let ghost pv = entry_views(pending@);
        let e = rest.pop().unwrap();
        assert(entry_views(rest@) =~= rv.drop_last());
        pending.push(e);
        assert(entry_views(pending@) =~= pv.push(rv.last()));
        assert(entry_views(pending@).reverse() =~= seq![rv.last()] + pv.reverse());
        assert(entry_views(rest@) + entry_views(pending@).reverse() =~= rv + pv.reverse());
    }
    assert(entry_views(rest@) =~= Seq::<EntrySpec>::empty());
    assert(entry_views(pending@).reverse() =~= unsorted);
    let mut done: usize = 0;
    assert(unsorted.take(0) =~= Seq::<EntrySpec>::empty());
    assert(entry_views(sorted@) =~= sorted_by_name(unsorted.take(0)));
    while pending.len() > 0
        invariant
            entry_views(pending@).reverse() == unsorted.skip(done as int),
            done <= unsorted.len(),
            unsorted.len() == count,
            done + pending@.len() == unsorted.len(),
            entry_views(sorted@) == sorted_by_name(unsorted.take(done as int)),
            keys@.len() == sorted@.len(),
            forall|k: int| 0 <= k < keys@.len() ==> (#[trigger] keys@[k])@ == sort_key(entry_views(sorted@)[k]),
        decreases pending.len(),
    {
        let ghost pv = entry_views(pending@);
        let ghost sv = entry_views(sorted@);
        let e = pending.pop().unwrap();
        assert(entry_views(pending@) =~= pv.drop_last());
        assert(pv.reverse()[0] == pv.last());
        assert(unsorted[done as int] == unsorted.skip(done as int)[0]);
        assert(entry_views(pending@).reverse() =~= unsorted.skip(done + 1)) by {
            assert(pv.drop_last().reverse() =~= pv.reverse().drop_first());
            assert(unsorted.skip(done as int).drop_first() =~= unsorted.skip(done + 1));
        }
        let lower = crate::text::to_lowercase(e.name.as_str());
        let key = chars_of(lower.as_str());
        let p = find_position(&keys, &key, Ghost(sv), Ghost(e@));
        let ghost ev = e@;
        let ghost old_keys = keys@;
        let ghost old_sorted = sorted@;
        sorted.insert(p, e);
        keys.insert(p, key);
        assert(unsorted.take(done + 1).drop_last() =~= unsorted.take(done as int));
        assert(unsorted.take(done + 1).last() == ev);
        assert(entry_views(sorted@) =~= sv.take(p as int).push(ev) + sv.skip(p as int));
        assert forall|k: int| 0 <= k < keys@.len() implies (#[trigger] keys@[k])@ == sort_key(entry_views(sorted@)[k]) by {
            if k < p {
                assert(keys@[k] == old_keys[k]);
                assert(sorted@[k] == old_sorted[k]);
            } else if k == p {
            } else {
                assert(keys@[k] == old_keys[k - 1]);
                assert(sorted@[k] == old_sorted[k - 1]);
            }
        }
        done = done + 1;
    }
    assert(unsorted.take(count as int) =~= unsorted);
    sorted
}

/// The texts held by a sequence of strings.
pub open spec fn string_views(s: Seq<String>) -> Seq<Seq<char>> {
    s.map_values(|x: String| x@)
}

pub open spec fn opt_view(o: Option<&str>) -> Option<Seq<char>> {
    match o {
        Some(s) => Some(s@),
        None => None,
    }
}

/// Every path of `dirs` joined with `part`.
pub open spec fn joined_all(dirs: Seq<Seq<char>>, part: Seq<char>) -> Seq<Seq<char>> {
    dirs.map_values(|d: Seq<char>| path_join(d, part))
}

fn strings_of_joined(dirs: &Vec<Vec<char>>, part: &Vec<char>, out: &mut Vec<String>)
    ensures
        string_views(final(out)@) == string_views(old(out)@) + joined_all(views(dirs@), part@),
{
    let ghost start = string_views(out@);
    let ghost target = joined_all(views(dirs@), part@);
    let n = dirs.len();
    for i in 0..n
        invariant
            n == dirs.len(),
            target == joined_all(views(dirs@), part@),
            string_views(out@) == start + target.take(i as int),
    {
        let ghost before = string_views(out@);
        let j = join(&dirs[i], part);
        let s = string_of(&j);
        out.push(s);
        assert(string_views(out@) =~= before.push(j@));
        assert(target.take(i + 1) =~= target.take(i as int).push(j@));
    }
    assert(target.take(n as int) =~= target);
}

fn keep_nonempty(pieces: Vec<Vec<char>>) -> (out: Vec<Vec<char>>)
    ensures
        views(out@) == nonempty_pieces(views(pieces@)),
{
    let mut out: Vec<Vec<char>> = Vec::new();
    append_nonempty(&mut out, pieces);
    assert(views(out@) =~= nonempty_pieces(views(pieces@)));
    out
}

/// The directories searched for desktop files: `$XDG_DATA_HOME/applications`
/// (or `$HOME/.local/share/applications` when it is unset), then
/// `applications` under every non-empty entry of `$XDG_DATA_DIRS`
/// (by default `/usr/local/share:/usr/share`).
pub open spec fn application_dirs_spec(
    data_home: Option<Seq<char>>,
    home: Option<Seq<char>>,
    data_dirs: Option<Seq<char>>,
) -> Seq<Seq<char>> {
    let first = match data_home {
        Some(d) => seq![path_join(d, "applications"@)],
        None => match home {
            Some(h) => seq![path_join(h, ".local/share/applications"@)],
            None => Seq::empty(),
        },
    };
    let list = match data_dirs {
        Some(d) => d,
        None => "/usr/local/share:/usr/share"@,
    };
    first + joined_all(nonempty_pieces(split_on(list, ':')), "applications"@)
}

/// The application directories, from the values of `XDG_DATA_HOME`, `HOME`
/// and `XDG_DATA_DIRS` (`None` for an unset variable).
pub fn application_dirs(data_home: Option<&str>, home: Option<&str>, data_dirs: Option<&str>) -> (dirs: Vec<String>)
    ensures
        string_views(dirs@) == application_dirs_spec(
            opt_view(data_home),
            opt_view(home),
            opt_view(data_dirs),
        ),
{
    let mut dirs: Vec<String> = Vec::new();
    match data_home {
        Some(d) => {
            let j = join(&chars_of(d), &chars_of("applications"));
            dirs.push(string_of(&j));
        },
        None => match home {
            Some(h) => {
                let j = join(&chars_of(h), &chars_of(".local/share/applications"));
                dirs.push(string_of(&j));
            },
            None => {},
        },
    }
    let ghost first = string_views(dirs@);
    assert(first =~= application_dirs_spec(opt_view(data_home), opt_view(home), opt_view(data_dirs)).take(first.len() as int)) by {
        assert(joined_all(Seq::<Seq<char>>::empty(), "applications"@) =~= Seq::<Seq<char>>::empty());
    }
    let list = match data_dirs {
        Some(d) => chars_of(d),
        None => chars_of("/usr/local/share:/usr/share"),
    };
    let pieces = keep_nonempty(split_chars(&list, ':'));
    let apps = chars_of("applications");
    strings_of_joined(&pieces, &apps, &mut dirs);
    assert(string_views(dirs@) =~= application_dirs_spec(
        opt_view(data_home),
        opt_view(home),
        opt_view(data_dirs),
    ));
    dirs
}

/// Terminal emulators tried, in order, after `$TERMINAL`.
pub open spec fn known_terminals() -> Seq<Seq<char>> {
    seq![
        "x-terminal-emulator"@,
        "kitty"@,
        "alacritty"@,
        "wezterm"@,
        "foot"@,
        "konsole"@,
        "gnome-terminal"@,
        "xfce4-terminal"@,
        "terminator"@,
        "urxvt"@,
        "xterm"@,
    ]
}

/// The terminal emulators tried, in order: `$TERMINAL` when it is set and
/// not empty, then the known ones. The first that exists is used.
pub open spec fn terminal_candidates_spec(env_terminal: Option<Seq<char>>) -> Seq<Seq<char>> {
    match env_terminal {
        Some(t) => if t.len() > 0 {
            seq![t] + known_terminals()
        } else {
            known_terminals()
        },
        None => known_terminals(),
    }
}

/// The terminal emulators to try, given the value of `TERMINAL`.
pub fn terminal_candidates(env_terminal: Option<&str>) -> (out: Vec<String>)
    ensures
        string_views(out@) == terminal_candidates_spec(opt_view(env_terminal)),
{
    let mut out: Vec<String> = Vec::new();
    match env_terminal {
        Some(t) => {
            let tc = chars_of(t);
            if tc.len() > 0 {
                out.push(string_of(&tc));
            }
        },
        None => {},
    }
    let known: [&str; 11] = [
        "x-terminal-emulator",
        "kitty",
        "alacritty",
        "wezterm",
        "foot",
        "konsole",
        "gnome-terminal",
        "xfce4-terminal",
        "terminator",
        "urxvt",
        "xterm",
    ];
    let ghost start = string_views(out@);
    for i in 0..11
        invariant
            string_views(out@) == start + known@.take(i as int).map_values(|s: &str| s@),
            known@.len() == 11,
    {
        let ghost before = string_views(out@);
        let s = string_of(&chars_of(known[i]));
        out.push(s);
        assert(string_views(out@) =~= before.push(known@[i as int]@));
        assert(known@.take(i + 1).map_values(|s: &str| s@) =~= known@.take(i as int).map_values(|s: &str| s@).push(known@[i as int]@));
    }
    assert(known@.take(11).map_values(|s: &str| s@) =~= known_terminals());
    assert(string_views(out@) =~= terminal_candidates_spec(opt_view(env_terminal)));
    out
}

/// The files that would be the program `name`: the path itself when it
/// contains a `/`; otherwise `name` under each entry of `$PATH` (none when
/// `PATH` is unset). The program exists when one of them does.
pub open spec fn binary_candidates_spec(name: Seq<char>, path_var: Option<Seq<char>>) -> Seq<Seq<char>> {
    if name.contains('/') {
        seq![name]
    } else {
        match path_var {
            Some(p) => joined_all(split_on(p, ':'), name),
            None => Seq::empty(),
        }
    }
}

fn contains_char(v: &Vec<char>, c: char) -> (b: bool)
    ensures
        b == v@.contains(c),
{
    let n = v.len();
    for i in 0..n
        invariant
            n == v.len(),
            forall|k: int| 0 <= k < i ==> v@[k] != c,
    {
        if v[i] == c {
            return true;
        }
    }
    false
}

/// The files to look for when checking whether the program `name` exists,
/// given the value of `PATH`.
pub fn binary_candidates(name: &str, path_var: Option<&str>) -> (out: Vec<String>)
    ensures
        string_views(out@) == binary_candidates_spec(name@, opt_view(path_var)),
{
    let n = chars_of(name);
    let mut out: Vec<String> = Vec::new();
    if contains_char(&n, '/') {
        out.push(string_of(&n));
        assert(string_views(out@) =~= seq![name@]);
        return out;
    }
    match path_var {
        Some(p) => {
            let dirs = split_chars(&chars_of(p), ':');
            strings_of_joined(&dirs, &n, &mut out);
        },
        None => {},
    }
    assert(string_views(out@) =~= binary_candidates_spec(name@, opt_view(path_var)));
    out
}

/// How to open a file with an application.
pub enum LaunchPlan {
    /// Hand the file to the application's command, detached.
    OpenWith { command: String },
    /// Run `program args... <file>` detached: the file's path, as the
    /// system gives it, follows the arguments.
    InTerminal { program: String, args: Vec<String> },
    /// The application needs a terminal and none was found.
    NoTerminal { message: String },
}

/// The model of a [`LaunchPlan`].
pub enum PlanSpec {
    OpenWith { command: Seq<char> },
    InTerminal { program: Seq<char>, args: Seq<Seq<char>> },
    NoTerminal { message: Seq<char> },
}

impl View for LaunchPlan {
    type V = PlanSpec;

    open spec fn view(&self) -> PlanSpec {
        match self {
            LaunchPlan::OpenWith { command } => PlanSpec::OpenWith { command: command@ },
            LaunchPlan::InTerminal { program, args } => PlanSpec::InTerminal {
                program: program@,
                args: string_views(args@),
            },
            LaunchPlan::NoTerminal { message } => PlanSpec::NoTerminal { message: message@ },
        }
    }
}

/// A graphical application opens the file itself; one that needs a
/// terminal runs as `<terminal> -e <command> <file>`; without a terminal
/// the launch fails with "<name> needs a terminal, but none could be found".
pub open spec fn launch_plan_spec(name: Seq<char>, command: Seq<char>, needs_terminal: bool, terminal: Option<Seq<char>>) -> PlanSpec {
    if !needs_terminal {
        PlanSpec::OpenWith { command }
    } else {
        match terminal {
            Some(t) => PlanSpec::InTerminal { program: t, args: seq!["-e"@, command] },
            None => PlanSpec::NoTerminal {
                message: name + " needs a terminal, but none could be found"@,
            },
        }
    }
}

/// How to open a file with `app`; `terminal` is the terminal emulator
/// found, looked for only when the application needs one.
pub fn launch_plan(app: &DesktopApp, terminal: Option<String>) -> (plan: LaunchPlan)
    ensures
        plan@ == launch_plan_spec(
            app.name@,
            app.command@,
            app.terminal,
            match terminal {
                Some(t) => Some(t@),
                None => None,
            },
        ),
{
    if !app.terminal {
        return LaunchPlan::OpenWith { command: copy_string(&app.command) };
    }
    match terminal {
        Some(t) => {
            let mut args: Vec<String> = Vec::new();
            args.push(string_of(&chars_of("-e")));
            args.push(copy_string(&app.command));
            assert(string_views(args@) =~= seq!["-e"@, app.command@]);
            LaunchPlan::InTerminal { program: t, args }
        },
        None => {
            let mut message = copy_string(&app.name);
            message.append(" needs a terminal, but none could be found");
            LaunchPlan::NoTerminal { message }
        },
    }
}

/// Whether a directory entry is a desktop file: its extension is exactly
/// `desktop`.
pub fn is_desktop_file(path: &str) -> (b: bool)
    ensures
        b == (extension(path@) == Some("desktop"@)),
{
    let p = chars_of(path);
    match extension_of(&p) {
        Some(e) => same_chars(&e, &chars_of("desktop")),
        None => false,
    }
}

proof fn lemma_lex_less_trans(a: Seq<char>, b: Seq<char>, c: Seq<char>)
    requires
        lex_less(a, b),
        lex_less(b, c),
    ensures
        lex_less(a, c),
    decreases a.len(),
{
    if a.len() > 0 && b.len() > 0 && c.len() > 0 {
        if a[0] == b[0] && b[0] == c[0] {
            lemma_lex_less_trans(a.drop_first(), b.drop_first(), c.drop_first());
        }
    }
}

proof fn lemma_insert_position(s: Seq<EntrySpec>, x: EntrySpec)
    ensures
        0 <= insert_position(s, x) <= s.len(),
        forall|i: int| 0 <= i < insert_position(s, x) ==> !lex_less(sort_key(x), sort_key(#[trigger] s[i])),
        insert_position(s, x) < s.len() ==> lex_less(sort_key(x), sort_key(s[insert_position(s, x)])),
    decreases s.len(),
{
    if s.len() > 0 && !lex_less(sort_key(x), sort_key(s[0])) {
        lemma_insert_position(s.drop_first(), x);
        assert forall|i: int| 0 <= i < insert_position(s, x) implies !lex_less(sort_key(x), sort_key(#[trigger] s[i])) by {
            if i > 0 {
                assert(s[i] == s.drop_first()[i - 1]);
            }
        }
    }
}

/// Ordered by `sort_key`: no entry's key is less than an earlier one's.
pub open spec fn is_sorted_by_name(s: Seq<EntrySpec>) -> bool {
    forall|i: int, j: int| 0 <= i < j < s.len() ==> !lex_less(sort_key(#[trigger] s[j]), sort_key(#[trigger] s[i]))
}

/// No two entries run the same command.
pub open spec fn distinct_commands(s: Seq<EntrySpec>) -> bool {
    forall|i: int, j: int| 0 <= i < s.len() && 0 <= j < s.len() && i != j ==> (#[trigger] s[i]).command != (#[trigger] s[j]).command
}

proof fn lemma_sorted_by_name(es: Seq<EntrySpec>)
    ensures
        is_sorted_by_name(sorted_by_name(es)),
        sorted_by_name(es).len() == es.len(),
        forall|k: int| 0 <= k < sorted_by_name(es).len() ==> es.contains(#[trigger] sorted_by_name(es)[k]),
        distinct_commands(es) ==> distinct_commands(sorted_by_name(es)),
    decreases es.len(),
{
    if es.len() > 0 {
        let d = es.drop_last();
        let x = es.last();
        let s = sorted_by_name(d);
        lemma_sorted_by_name(d);
        lemma_insert_position(s, x);
        let p = insert_position(s, x);
        let r = sorted_by_name(es);
        assert(r == s.take(p).push(x) + s.skip(p));
        assert(r.len() == es.len());
        // Positions in r: before p from s, p is x, after p from s shifted.
        assert forall|k: int| 0 <= k < r.len() implies #[trigger] r[k] == (if k < p {
            s[k]
        } else if k == p {
            x
        } else {
            s[k - 1]
        }) by {}
        assert forall|k: int| 0 <= k < r.len() implies es.contains(#[trigger] r[k]) by {
            if k == p {
                assert(es[es.len() - 1] == x);
            } else {
                let kk = if k < p {
                    k
                } else {
                    k - 1
                };
                assert(d.contains(s[kk]));
                let j = choose|j: int| 0 <= j < d.len() && d[j] == s[kk];
                assert(es[j] == d[j]);
            }
        }
        assert forall|i: int, j: int| 0 <= i < j < r.len() implies !lex_less(sort_key(#[trigger] r[j]), sort_key(#[trigger] r[i])) by {
            if j < p {
            } else if j == p {
            } else if i < p {
                // r[i] = s[i], r[j] = s[j-1], i < j - 1
            } else if i == p {
                if p < s.len() {
                    if lex_less(sort_key(s[j - 1]), sort_key(x)) {
                        lemma_lex_less_trans(sort_key(s[j - 1]), sort_key(x), sort_key(s[p]));
                        if j - 1 > p {
                            assert(!lex_less(sort_key(s[j - 1]), sort_key(s[p])));
                        } else {
                            lemma_lex_irreflexive(sort_key(s[p]));
                        }
                    }
                }
            } else {
            }
        }
        if distinct_commands(es) {
            assert(distinct_commands(d)) by {
                assert forall|i: int, j: int| 0 <= i < d.len() && 0 <= j < d.len() && i != j implies (#[trigger] d[i]).command != (#[trigger] d[j]).command by {
                    assert(d[i] == es[i]);
                    assert(d[j] == es[j]);
                }
            }
            assert forall|k: int| 0 <= k < s.len() implies (#[trigger] s[k]).command != x.command by {
                assert(d.contains(s[k]));
                let j = choose|j: int| 0 <= j < d.len() && d[j] == s[k];
                assert(es[j] == d[j]);
                assert(es[es.len() - 1] == x);
            }
            assert forall|i: int, j: int| 0 <= i < r.len() && 0 <= j < r.len() && i != j implies (#[trigger] r[i]).command != (#[trigger] r[j]).command by {
                if i != p && j != p {
                    let ii = if i < p { i } else { i - 1 };
                    let jj = if j < p { j } else { j - 1 };
                    assert(s[ii].command != s[jj].command);
                } else if i == p {
                    let jj = if j < p { j } else { j - 1 };
                    assert(s[jj].command != x.command);
                } else {
                    let ii = if i < p { i } else { i - 1 };
                    assert(s[ii].command != x.command);
                }
            }
        }
    }
}

proof fn lemma_lex_irreflexive(a: Seq<char>)
    ensures
        !lex_less(a, a),
    decreases a.len(),
{
    if a.len() > 0 {
        lemma_lex_irreflexive(a.drop_first());
    }
}

proof fn lemma_dedup_commands(es: Seq<EntrySpec>)
    ensures
        distinct_commands(dedup_commands(es)),
    decreases es.len(),
{
    if es.len() > 0 {
        lemma_dedup_commands(es.drop_last());
        let prev = dedup_commands(es.drop_last());
        if !(exists|i: int| 0 <= i < prev.len() && (#[trigger] prev[i]).command == es.last().command) {
            let r = prev.push(es.last());
            assert forall|i: int, j: int| 0 <= i < r.len() && 0 <= j < r.len() && i != j implies (#[trigger] r[i]).command != (#[trigger] r[j]).command by {
                if i < prev.len() && j < prev.len() {
                    assert(r[i] == prev[i]);
                    assert(r[j] == prev[j]);
                } else if i < prev.len() {
                    assert(r[i] == prev[i]);
                } else {
                    assert(r[j] == prev[j]);
                }
            }
        }
    }
}

/// The applications offered for a file are sorted by lowercased name and
/// no two of them run the same command.
pub proof fn law_discovered_apps_sorted_and_distinct(
    output: Option<(Option<i32>, Seq<char>)>,
    files: Seq<Option<Seq<char>>>,
)
    ensures
        is_sorted_by_name(discover_spec(output, files)),
        distinct_commands(discover_spec(output, files)),
{
    match mime_type_spec(output) {
        Some(m) => {
            let d = dedup_commands(parsed_entries(files, m));
            lemma_dedup_commands(parsed_entries(files, m));
            lemma_sorted_by_name(d);
        },
        None => {},
    }
}

proof fn lemma_split_first_piece(t: Seq<char>, sub: Seq<char>)
    requires
        !t.contains('/'),
    ensures
        split_on(t + seq!['/'] + sub, '/').len() >= 2,
        split_on(t + seq!['/'] + sub, '/')[0] == t,
    decreases sub.len(),
{
    let s = t + seq!['/'] + sub;
    if sub.len() == 0 {
        assert(s.drop_last() =~= t);
        lemma_split_no_sep(t);
    } else {
        lemma_split_first_piece(t, sub.drop_last());
        assert(s.drop_last() =~= t + seq!['/'] + sub.drop_last());
    }
}

proof fn lemma_split_no_sep(t: Seq<char>)
    requires
        !t.contains('/'),
    ensures
        split_on(t, '/') == seq![t],
    decreases t.len(),
{
    if t.len() > 0 {
        assert(!t.drop_last().contains('/')) by {
            if t.drop_last().contains('/') {
                let k = choose|k: int| 0 <= k < t.drop_last().len() && t.drop_last()[k] == '/';
                assert(t[k] == '/');
            }
        }
        lemma_split_no_sep(t.drop_last());
        assert(t.last() != '/') by {
            assert(t[t.len() - 1] == t.last());
        }
        assert(t.drop_last().push(t.last()) =~= t);
        assert(seq![t.drop_last()].update(0, t) =~= seq![t]);
    } else {
        assert(t =~= Seq::<char>::empty());
    }
}

/// A pattern matches a MIME type equal to it, and `type/*` matches every
/// subtype of `type`.
pub proof fn law_mime_patterns(mime_type: Seq<char>, subtype: Seq<char>)
    requires
        !mime_type.contains('/'),
    ensures
        mime_matches_spec(mime_type + seq!['/'] + subtype, mime_type + seq!['/'] + subtype),
        mime_matches_spec(mime_type + seq!['/', '*'], mime_type + seq!['/'] + subtype),
{
    lemma_split_first_piece(mime_type, subtype);
    let p = mime_type + seq!['/', '*'];
    assert(p.take(p.len() - 2) =~= mime_type);
}

/// The desktop file text `file` declares the entry `e` for `mime`.
pub open spec fn declares(file: Option<Seq<char>>, mime: Seq<char>, e: EntrySpec) -> bool {
    match file {
        Some(c) => parse_desktop_entry_spec(c, mime) == Some(e),
        None => false,
    }
}

proof fn lemma_dedup_subset(es: Seq<EntrySpec>)
    ensures
        forall|k: int| 0 <= k < dedup_commands(es).len() ==> es.contains(#[trigger] dedup_commands(es)[k]),
    decreases es.len(),
{
    if es.len() > 0 {
        let d = es.drop_last();
        lemma_dedup_subset(d);
        let r = dedup_commands(es);
        let prev = dedup_commands(d);
        assert forall|k: int| 0 <= k < r.len() implies es.contains(#[trigger] r[k]) by {
            if k < prev.len() {
                assert(r[k] == prev[k]);
                assert(d.contains(prev[k]));
                let j = choose|j: int| 0 <= j < d.len() && d[j] == prev[k];
                assert(es[j] == d[j]);
            } else {
                assert(r[k] == es.last());
                assert(es[es.len() - 1] == es.last());
            }
        }
    }
}

proof fn lemma_parsed_from_files(files: Seq<Option<Seq<char>>>, mime: Seq<char>)
    ensures
        forall|k: int| 0 <= k < parsed_entries(files, mime).len() ==> exists|j: int|
            0 <= j < files.len() && declares(
                #[trigger] files[j],
                mime,
                #[trigger] parsed_entries(files, mime)[k],
            ),
    decreases files.len(),
{
    if files.len() > 0 {
        let d = files.drop_last();
        lemma_parsed_from_files(d, mime);
        let prev = parsed_entries(d, mime);
        let r = parsed_entries(files, mime);
        assert forall|k: int| 0 <= k < r.len() implies exists|j: int|
            0 <= j < files.len() && declares(#[trigger] files[j], mime, #[trigger] r[k]) by {
            if k < prev.len() {
                assert(r[k] == prev[k]);
                let j = choose|j: int|
                    0 <= j < d.len() && declares(#[trigger] d[j], mime, prev[k]);
                assert(files[j] == d[j]);
            } else {
                assert(files[files.len() - 1] == files.last());
            }
        }
    }
}

/// Every application offered was declared, for the file's MIME type, by one
/// of the desktop files read.
pub proof fn law_discovered_apps_come_from_files(
    output: Option<(Option<i32>, Seq<char>)>,
    files: Seq<Option<Seq<char>>>,
)
    ensures
        mime_type_spec(output) is None ==> discover_spec(output, files).len() == 0,
        mime_type_spec(output) matches Some(m) ==> forall|k: int|
            0 <= k < discover_spec(output, files).len() ==> exists|j: int|
                0 <= j < files.len() && declares(
                    #[trigger] files[j],
                    m,
                    #[trigger] discover_spec(output, files)[k],
                ),
{
    match mime_type_spec(output) {
        Some(m) => {
            let p = parsed_entries(files, m);
            let d = dedup_commands(p);
            let r = sorted_by_name(d);
            lemma_parsed_from_files(files, m);
            lemma_dedup_subset(p);
            lemma_sorted_by_name(d);
            assert forall|k: int| 0 <= k < r.len() implies exists|j: int|
                0 <= j < files.len() && declares(#[trigger] files[j], m, #[trigger] r[k]) by {
                assert(d.contains(r[k]));
                let a = choose|a: int| 0 <= a < d.len() && d[a] == r[k];
                assert(p.contains(d[a]));
                let b = choose|b: int| 0 <= b < p.len() && p[b] == d[a];
                assert(exists|j: int|
                    0 <= j < files.len() && declares(#[trigger] files[j], m, p[b]));
            }
        },
        None => {},
    }
}

proof fn lemma_parsed_contains(files: Seq<Option<Seq<char>>>, mime: Seq<char>, j: int, e: EntrySpec)
    requires
        0 <= j < files.len(),
        declares(files[j], mime, e),
    ensures
        parsed_entries(files, mime).contains(e),
    decreases files.len(),
{
    let d = files.drop_last();
    let prev = parsed_entries(d, mime);
    let r = parsed_entries(files, mime);
    if j == files.len() - 1 {
        assert(files.last() == files[j]);
        assert(r == prev.push(e));
        assert(r[prev.len() as int] == e);
    } else {
        assert(d[j] == files[j]);
        lemma_parsed_contains(d, mime, j, e);
        let k = choose|k: int| 0 <= k < prev.len() && prev[k] == e;
        assert(r[k] == prev[k]);
    }
}

proof fn lemma_dedup_covers(es: Seq<EntrySpec>, e: EntrySpec)
    requires
        es.contains(e),
    ensures
        exists|k: int| 0 <= k < dedup_commands(es).len() && (#[trigger] dedup_commands(es)[k]).command == e.command,
    decreases es.len(),
{
    let d = es.drop_last();
    let prev = dedup_commands(d);
    let r = dedup_commands(es);
    if es.last() == e {
        if exists|i: int| 0 <= i < prev.len() && (#[trigger] prev[i]).command == es.last().command {
            let i = choose|i: int| 0 <= i < prev.len() && (#[trigger] prev[i]).command == es.last().command;
            assert(r[i] == prev[i]);
        } else {
            assert(r[prev.len() as int] == e);
        }
    } else {
        let j = choose|j: int| 0 <= j < es.len() && es[j] == e;
        assert(j != es.len() - 1);
        assert(d[j] == e);
        lemma_dedup_covers(d, e);
        let i = choose|i: int| 0 <= i < prev.len() && (#[trigger] prev[i]).command == e.command;
        assert(r[i] == prev[i]);
    }
}

proof fn lemma_sorted_keeps(es: Seq<EntrySpec>)
    ensures
        forall|k: int| 0 <= k < es.len() ==> sorted_by_name(es).contains(#[trigger] es[k]),
    decreases es.len(),
{
    if es.len() > 0 {
        let d = es.drop_last();
        let x = es.last();
        let s = sorted_by_name(d);
        lemma_sorted_keeps(d);
        lemma_insert_position(s, x);
        let p = insert_position(s, x);
        let r = sorted_by_name(es);
        assert(r == s.take(p).push(x) + s.skip(p));
        assert forall|k: int| 0 <= k < es.len() implies r.contains(#[trigger] es[k]) by {
            if k == es.len() - 1 {
                assert(r[p] == x);
            } else {
                assert(es[k] == d[k]);
                assert(s.contains(d[k]));
                let i = choose|i: int| 0 <= i < s.len() && s[i] == d[k];
                if i < p {
                    assert(r[i] == s[i]);
                } else {
                    assert(r[i + 1] == s[i]);
                }
            }
        }
    }
}

/// Discovery leaves no declared application out: once the MIME type is
/// known, every entry that a readable desktop file declares for it, whatever
/// its name, icon or terminal flag, is offered, or another entry with the
/// same command is.
pub proof fn law_discovery_is_complete(
    output: Option<(Option<i32>, Seq<char>)>,
    files: Seq<Option<Seq<char>>>,
    j: int,
    e: EntrySpec,
)
    requires
        0 <= j < files.len(),
        mime_type_spec(output) matches Some(m) && declares(files[j], m, e),
    ensures
        exists|k: int|
            0 <= k < discover_spec(output, files).len() && (#[trigger] discover_spec(output, files)[k]).command
                == e.command,
{
    let m = mime_type_spec(output)->0;
    let p = parsed_entries(files, m);
    let d = dedup_commands(p);
    let r = sorted_by_name(d);
    lemma_parsed_contains(files, m, j, e);
    lemma_dedup_covers(p, e);
    let i = choose|i: int| 0 <= i < d.len() && (#[trigger] d[i]).command == e.command;
    lemma_sorted_keeps(d);
    assert(r.contains(d[i]));
    let k = choose|k: int| 0 <= k < r.len() && r[k] == d[i];
    assert(discover_spec(output, files) == r);
    assert(discover_spec(output, files)[k].command == e.command);
}

/// The state after reading `lines` on from `st`.
spec fn parse_from(st: ParseState, lines: Seq<Seq<char>>) -> ParseState
    decreases lines.len(),
{
    if lines.len() == 0 {
        st
    } else {
        parse_step(parse_from(st, lines.drop_last()), lines.last())
    }
}

proof fn lemma_parse_append(l1: Seq<Seq<char>>, l2: Seq<Seq<char>>)
    ensures
        parse_lines(l1 + l2) == parse_from(parse_lines(l1), l2),
    decreases l2.len(),
{
    if l2.len() == 0 {
        assert(l1 + l2 =~= l1);
    } else {
        lemma_parse_append(l1, l2.drop_last());
        assert((l1 + l2).drop_last() =~= l1 + l2.drop_last());
        assert((l1 + l2).last() == l2.last());
    }
}

proof fn lemma_outside_group(st: ParseState, lines: Seq<Seq<char>>)
    requires
        !st.in_section,
        forall|i: int| 0 <= i < lines.len() ==> trim(#[trigger] lines[i]) != section_header(),
    ensures
        parse_from(st, lines) == st,
    decreases lines.len(),
{
    if lines.len() > 0 {
        assert forall|i: int| 0 <= i < lines.drop_last().len() implies trim(
            #[trigger] lines.drop_last()[i],
        ) != section_header() by {
            assert(lines.drop_last()[i] == lines[i]);
        }
        lemma_outside_group(st, lines.drop_last());
        assert(trim(lines[lines.len() - 1]) != section_header());
    }
}

proof fn lemma_empty_line(st: ParseState)
    ensures
        parse_step(st, Seq::<char>::empty()) == st,
{
    let e = Seq::<char>::empty();
    assert(strip_start(e, ws_pred()) == e);
    assert(strip_end(e, ws_pred()) == e);
    assert(trim(e) == e);
    assert(!has_prefix(e, seq!['[']));
    assert(e != no_display_line());
    assert(e != hidden_line());
    assert(e != terminal_line());
}

proof fn lemma_text_lines_parse(x: Seq<char>)
    ensures
        parse_lines(text_lines(x)) == parse_lines(split_on(x, '\n')),
{
    let ps = split_on(x, '\n');
    lemma_split_on_nonempty(x, '\n');
    if ps.last().len() == 0 {
        assert(ps.last() =~= Seq::<char>::empty());
        lemma_empty_line(parse_lines(ps.drop_last()));
    }
}

/// Only the `[Desktop Entry]` group counts: lines appended to a desktop
/// file that begin with the header of another group, and do not open
/// `[Desktop Entry]` again, change nothing of what the file declares,
/// whatever keys they hold.
pub proof fn law_other_groups_are_ignored(contents: Seq<char>, tail: Seq<char>, mime: Seq<char>)
    requires
        has_prefix(trim(split_on(tail, '\n')[0]), seq!['[']),
        forall|i: int|
            0 <= i < split_on(tail, '\n').len() ==> trim(#[trigger] split_on(tail, '\n')[i])
                != section_header(),
    ensures
        parse_desktop_entry_spec(contents + seq!['\n'] + tail, mime) == parse_desktop_entry_spec(
            contents,
            mime,
        ),
{
    let whole = contents + seq!['\n'] + tail;
    let a = split_on(contents, '\n');
    let t = split_on(tail, '\n');
    lemma_split_on_nonempty(tail, '\n');
    lemma_split_on_concat(contents, tail, '\n');
    lemma_text_lines_parse(whole);
    lemma_text_lines_parse(contents);
    let h = t[0];
    let rest = t.drop_first();
    assert(a + t =~= a.push(h) + rest);
    lemma_parse_append(a.push(h), rest);
    assert(a.push(h).drop_last() =~= a);
    let st = parse_lines(a);
    let st1 = parse_lines(a.push(h));
    assert(st1 == parse_step(st, h));
    assert(st1 == ParseState { in_section: false, ..st });
    assert forall|i: int| 0 <= i < rest.len() implies trim(#[trigger] rest[i]) != section_header() by {
        assert(rest[i] == t[i + 1]);
    }
    lemma_outside_group(st1, rest);
    assert(parse_lines(text_lines(whole)) == st1);
    assert(parse_lines(text_lines(contents)) == st);
    assert(st1.mime_types == st.mime_types && st1.name == st.name && st1.exec_value
        == st.exec_value && st1.icon == st.icon && st1.no_display == st.no_display && st1.hidden
        == st.hidden && st1.terminal == st.terminal);
}

/// The terminal emulators tried for an application that needs one are
/// `$TERMINAL`, when it is set and not empty, and then x-terminal-emulator,
/// kitty, alacritty, wezterm, foot, konsole, gnome-terminal, xfce4-terminal,
/// terminator, urxvt and xterm, in that order.
pub proof fn law_terminal_lookup_order(env_terminal: Option<Seq<char>>)
    ensures
        terminal_candidates_spec(env_terminal) == (match env_terminal {
            Some(t) => if t.len() > 0 {
                seq![t]
            } else {
                Seq::<Seq<char>>::empty()
            },
            None => Seq::<Seq<char>>::empty(),
        }) + seq![
            "x-terminal-emulator"@,
            "kitty"@,
            "alacritty"@,
            "wezterm"@,
            "foot"@,
            "konsole"@,
            "gnome-terminal"@,
            "xfce4-terminal"@,
            "terminator"@,
            "urxvt"@,
            "xterm"@,
        ],
{
    assert(Seq::<Seq<char>>::empty() + known_terminals() =~= known_terminals());
}

} // verus!
