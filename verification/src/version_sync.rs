//! Keeping the version number of a project in step across its files: the
//! form a version tag must have, which lines of a file carry the version,
//! and what such a line becomes.
use vstd::prelude::*;

use crate::paths::{extension_of, path_extension};
use crate::text::{append_str, collect_chars};

verus! {

/// The pieces of `s` between the occurrences of `sep`, as `str::split`
/// gives them (an empty text is one empty piece).
pub open spec fn split_on(s: Seq<char>, sep: char) -> Seq<Seq<char>>
    decreases s.len(),
{
    if s.len() == 0 {
        seq![Seq::empty()]
    } else {
        let init = split_on(s.drop_last(), sep);
        if s.last() == sep {
            init.push(Seq::empty())
        } else {
            init.update(init.len() - 1, init.last().push(s.last()))
        }
    }
}

/// `split_on` always gives at least one piece.
pub proof fn lemma_split_on_nonempty(s: Seq<char>, sep: char)
    ensures
        split_on(s, sep).len() >= 1,
    decreases s.len(),
{
    if s.len() > 0 {
        lemma_split_on_nonempty(s.drop_last(), sep);
    }
}

/// The views of a list of character vectors.
pub open spec fn char_vec_views(v: Seq<Vec<char>>) -> Seq<Seq<char>> {
    v.map_values(|p: Vec<char>| p@)
}

/// The pieces of `chars` between the occurrences of `sep`.
pub fn split_chars(chars: &Vec<char>, sep: char) -> (parts: Vec<Vec<char>>)
    ensures
        char_vec_views(parts@) == split_on(chars@, sep),
{
    let mut parts: Vec<Vec<char>> = Vec::new();
    parts.push(Vec::new());
    let mut i: usize = 0;
    proof {
        assert(chars@.take(0) =~= Seq::<char>::empty());
        assert(char_vec_views(parts@) =~= seq![Seq::<char>::empty()]);
    }
    while i < chars.len()
        invariant
            i <= chars@.len(),
            parts@.len() >= 1,
            char_vec_views(parts@) == split_on(chars@.take(i as int), sep),
        decreases chars@.len() - i,
    {
        let c = chars[i];
        let ghost before = char_vec_views(parts@);
        proof {
            assert(chars@.take(i + 1).drop_last() =~= chars@.take(i as int));
            assert(chars@.take(i + 1).last() == c);
        }
        if c == sep {
            parts.push(Vec::new());
            proof {
                assert(char_vec_views(parts@) =~= before.push(Seq::empty()));
            }
        } else {
            let mut last = parts.pop().unwrap();
            last.push(c);
            parts.push(last);
            proof {
                assert(char_vec_views(parts@) =~= before.update(
                    before.len() - 1,
                    before.last().push(c),
                ));
            }
        }
        i = i + 1;
    }
    assert(chars@.take(chars@.len() as int) =~= chars@);
    parts
}

/// Whether two character vectors hold the same characters.
pub fn chars_eq(a: &Vec<char>, b: &Vec<char>) -> (r: bool)
    ensures
        r == (a@ == b@),
{
    if a.len() != b.len() {
        return false;
    }
    let mut i: usize = 0;
    while i < a.len()
        invariant
            a@.len() == b@.len(),
            i <= a@.len(),
            forall|k: int| 0 <= k < i ==> a@[k] == b@[k],
        decreases a@.len() - i,
    {
        if a[i] != b[i] {
            return false;
        }
        i = i + 1;
    }
    assert(a@ =~= b@);
    true
}

/// `pat` occurs somewhere in `s`.
pub open spec fn contains_seq(s: Seq<char>, pat: Seq<char>) -> bool {
    exists|i: int| 0 <= i && i + pat.len() <= s.len() && #[trigger] s.subrange(i, i + pat.len()) == pat
}

/// Whether `pat` occurs somewhere in `s`.
pub fn contains_chars(s: &Vec<char>, pat: &Vec<char>) -> (r: bool)
    ensures
        r == contains_seq(s@, pat@),
{
    if pat.len() > s.len() {
        return false;
    }
    let last_start = s.len() - pat.len();
    let mut i: usize = 0;
    loop
        invariant
            last_start == s@.len() - pat@.len(),
            i <= last_start,
            forall|k: int| 0 <= k < i ==> #[trigger] s@.subrange(k, k + pat@.len()) != pat@,
        decreases last_start - i,
    {
        let mut j: usize = 0;
        let mut same = true;
        while j < pat.len()
            invariant
                i <= last_start,
                last_start == s@.len() - pat@.len(),
                last_start + pat.len() == s.len(),
                j <= pat@.len(),
                same <==> forall|k: int| 0 <= k < j ==> s@[i + k] == pat@[k],
            decreases pat@.len() - j,
        {
            if s[i + j] != pat[j] {
                same = false;
            }
            j = j + 1;
        }
        if same {
            assert(s@.subrange(i as int, i + pat@.len()) =~= pat@);
            return true;
        }
        proof {
            assert(s@.subrange(i as int, i + pat@.len()) != pat@) by {
                let k = choose|k: int| 0 <= k < pat@.len() && s@[i + k] != pat@[k];
                assert(s@.subrange(i as int, i + pat@.len())[k] == s@[i + k]);
            }
        }
        if i == last_start {
            proof {
                assert forall|k: int| 0 <= k && k + pat@.len() <= s@.len() implies #[trigger] s@.subrange(
                    k,
                    k + pat@.len(),
                ) != pat@ by {
                    assert(k <= last_start);
                }
            }
            return false;
        }
        i = i + 1;
    }
}

/// A version tag of the form `x.y.z`: three non-empty pieces between dots.
pub open spec fn valid_tag(s: Seq<char>) -> bool {
    let parts = split_on(s, '.');
    parts.len() == 3 && parts[0].len() > 0 && parts[1].len() > 0 && parts[2].len() > 0
}

/// The message for a tag that is not of the form `x.y.z`.
pub open spec fn invalid_tag_message() -> Seq<char> {
    "Invalid format! Must be on the form 'x.y.z'."@
}

/// Accepts a version tag of the form `x.y.z` (three non-empty pieces
/// between dots) and gives it back; refuses any other text with a message.
pub fn validate_tag(input: &str) -> (r: Result<String, String>)
    ensures
        match r {
            Ok(s) => valid_tag(input@) && s@ == input@,
            Err(e) => !valid_tag(input@) && e@ == invalid_tag_message(),
        },
{
    let chars = collect_chars(input);
    let parts = split_chars(&chars, '.');
    if parts.len() == 3 && parts[0].len() > 0 && parts[1].len() > 0 && parts[2].len() > 0 {
        proof {
            assert(char_vec_views(parts@)[0] == parts@[0]@);
            assert(char_vec_views(parts@)[1] == parts@[1]@);
            assert(char_vec_views(parts@)[2] == parts@[2]@);
        }
        Ok(input.to_owned())
    } else {
        proof {
            if parts@.len() == 3 {
                assert(char_vec_views(parts@)[0] == parts@[0]@);
                assert(char_vec_views(parts@)[1] == parts@[1]@);
                assert(char_vec_views(parts@)[2] == parts@[2]@);
            }
        }
        Err("Invalid format! Must be on the form 'x.y.z'.".to_owned())
    }
}

/// The command line of the version syncer: the version tag to set.
pub struct ClapParser {
    /// Version string (x.y.z).
    pub tag: String,
}

/// A file whose lines carry the project's version.
pub trait IVersionSyncing {
    /// A line of this file that carries the version.
    spec fn has_version_tag(&self, line: Seq<char>) -> bool;

    /// The line that carries `version` in this file.
    spec fn version_line(&self, version: Seq<char>) -> Seq<char>;

    /// The path of the file.
    fn get_path(&self) -> &String;

    /// Whether `line` carries the version.
    fn line_has_version_tag(&self, line: &str) -> (b: bool)
        ensures
            b == self.has_version_tag(line@),
    ;

    /// The line that replaces a line carrying the version, for `new_version`.
    fn replace_line(&self, existing_line: &str, new_version: &str) -> (s: String)
        ensures
            s@ == self.version_line(new_version@),
    ;
}

/// A `Cargo.toml`: the version is on a line `version = "..."`.
pub struct CargoTomlFile {
    pub path: String,
}

/// A Godot `project.godot`: the version is on a line with
/// `config/version=`.
pub struct ProjectGodotFile {
    pub path: String,
}

/// A line of a `Cargo.toml` that carries the version: exactly three pieces
/// between spaces, the first `version` and the second `=`.
pub open spec fn cargo_version_line(line: Seq<char>) -> bool {
    let parts = split_on(line, ' ');
    parts.len() == 3 && parts[0] == "version"@ && parts[1] == "="@
}

impl IVersionSyncing for CargoTomlFile {
    open spec fn has_version_tag(&self, line: Seq<char>) -> bool {
        cargo_version_line(line)
    }

    open spec fn version_line(&self, version: Seq<char>) -> Seq<char> {
        "version = \""@ + version + "\""@
    }

    fn get_path(&self) -> (p: &String)
        ensures
            *p == self.path,
    {
        &self.path
    }

    fn line_has_version_tag(&self, line: &str) -> (b: bool) {
        let chars = collect_chars(line);
        let parts = split_chars(&chars, ' ');
        if parts.len() != 3 {
            return false;
        }
        let version_word = collect_chars("version");
        let equals = collect_chars("=");
        let b = chars_eq(&parts[0], &version_word) && chars_eq(&parts[1], &equals);
        proof {
            assert(char_vec_views(parts@)[0] == parts@[0]@);
            assert(char_vec_views(parts@)[1] == parts@[1]@);
        }
        b
    }

    fn replace_line(&self, existing_line: &str, new_version: &str) -> (s: String) {
        let mut s = String::new();
        append_str(&mut s, "version = \"");
        append_str(&mut s, new_version);
        append_str(&mut s, "\"");
        assert(s@ =~= "version = \""@ + new_version@ + "\""@);
        s
    }
}

impl IVersionSyncing for ProjectGodotFile {
    open spec fn has_version_tag(&self, line: Seq<char>) -> bool {
        contains_seq(line, "config/version="@)
    }

    open spec fn version_line(&self, version: Seq<char>) -> Seq<char> {
        "config/version=\""@ + version + "\""@
    }

    fn get_path(&self) -> (p: &String)
        ensures
            *p == self.path,
    {
        &self.path
    }

    fn line_has_version_tag(&self, line: &str) -> (b: bool) {
        let chars = collect_chars(line);
        let pattern = collect_chars("config/version=");
        contains_chars(&chars, &pattern)
    }

    fn replace_line(&self, existing_line: &str, new_version: &str) -> (s: String) {
        let mut s = String::new();
        append_str(&mut s, "config/version=\"");
        append_str(&mut s, new_version);
        append_str(&mut s, "\"");
        assert(s@ =~= "config/version=\""@ + new_version@ + "\""@);
        s
    }
}

/// What a line of a file becomes when the version is set to `version`: a
/// line that carries the version is replaced, every other line is kept.
pub open spec fn synced_line<F: IVersionSyncing>(file: &F, line: Seq<char>, version: Seq<char>) -> Seq<
    char,
> {
    if file.has_version_tag(line) {
        file.version_line(version)
    } else {
        line
    }
}

/// The lines of a file with the version set to `version`.
pub fn synced_lines<F: IVersionSyncing>(file: &F, lines: &Vec<String>, version: &str) -> (out: Vec<
    String,
>)
    ensures
        out@.len() == lines@.len(),
        forall|i: int|
            0 <= i < lines@.len() ==> (#[trigger] out@[i])@ == synced_line(file, lines@[i]@, version@),
{
    let mut out: Vec<String> = Vec::new();
    let mut i: usize = 0;
    while i < lines.len()
        invariant
            i <= lines@.len(),
            out@.len() == i,
            forall|k: int|
                0 <= k < i ==> (#[trigger] out@[k])@ == synced_line(file, lines@[k]@, version@),
        decreases lines@.len() - i,
    {
        let line = lines[i].as_str();
        let new_line = if file.line_has_version_tag(line) {
            file.replace_line(line, version)
        } else {
            lines[i].clone()
        };
        out.push(new_line);
        i = i + 1;
    }
    out
}

/// A file whose version is kept in step, by kind.
pub enum SyncableFile {
    CargoToml(CargoTomlFile),
    ProjectGodot(ProjectGodotFile),
}

impl SyncableFile {
    /// The file's path.
    pub open spec fn path_text(&self) -> Seq<char> {
        match self {
            SyncableFile::CargoToml(f) => f.path@,
            SyncableFile::ProjectGodot(f) => f.path@,
        }
    }
}

/// A path whose extension says what kind of file it is: `toml` or `godot`.
pub open spec fn has_known_extension(path: Seq<char>) -> bool {
    path_extension(path) == Some("toml"@) || path_extension(path) == Some("godot"@)
}

/// The file at `path`, by its extension: `toml` is a `Cargo.toml`, `godot`
/// a Godot project file.
pub fn path_to_syncable_file(path: String) -> (file: SyncableFile)
    requires
        has_known_extension(path@),
    ensures
        file.path_text() == path@,
        path_extension(path@) == Some("toml"@) ==> file is CargoToml,
        path_extension(path@) == Some("godot"@) ==> file is ProjectGodot,
{
    let extension = extension_of(path.as_str()).unwrap();
    let toml = collect_chars("toml");
    proof {
        lemma_toml_not_godot();
    }
    if chars_eq(&collect_chars(extension.as_str()), &toml) {
        SyncableFile::CargoToml(CargoTomlFile { path })
    } else {
        SyncableFile::ProjectGodot(ProjectGodotFile { path })
    }
}

/// The file at `path` by its extension, or nothing when the extension is
/// neither `toml` nor `godot` (or missing).
pub fn try_path_to_syncable_file(path: String) -> (file: Option<SyncableFile>)
    ensures
        match file {
            Some(f) => has_known_extension(path@) && f.path_text() == path@ && (path_extension(
                path@,
            ) == Some("toml"@) ==> f is CargoToml) && (path_extension(path@) == Some("godot"@)
                ==> f is ProjectGodot),
            None => !has_known_extension(path@),
        },
{
    match extension_of(path.as_str()) {
        Some(extension) => {
            let e = collect_chars(extension.as_str());
            if chars_eq(&e, &collect_chars("toml")) || chars_eq(&e, &collect_chars("godot")) {
                Some(path_to_syncable_file(path))
            } else {
                None
            }
        },
        None => None,
    }
}

proof fn lemma_toml_not_godot()
    ensures
        "toml"@ != "godot"@,
{
    reveal_strlit("toml");
    reveal_strlit("godot");
    assert("toml"@.len() != "godot"@.len());
}

impl IVersionSyncing for SyncableFile {
    open spec fn has_version_tag(&self, line: Seq<char>) -> bool {
        match self {
            SyncableFile::CargoToml(f) => f.has_version_tag(line),
            SyncableFile::ProjectGodot(f) => f.has_version_tag(line),
        }
    }

    open spec fn version_line(&self, version: Seq<char>) -> Seq<char> {
        match self {
            SyncableFile::CargoToml(f) => f.version_line(version),
            SyncableFile::ProjectGodot(f) => f.version_line(version),
        }
    }

    fn get_path(&self) -> (p: &String)
        ensures
            p@ == self.path_text(),
    {
        match self {
            SyncableFile::CargoToml(f) => f.get_path(),
            SyncableFile::ProjectGodot(f) => f.get_path(),
        }
    }

    fn line_has_version_tag(&self, line: &str) -> (b: bool) {
        match self {
            SyncableFile::CargoToml(f) => f.line_has_version_tag(line),
            SyncableFile::ProjectGodot(f) => f.line_has_version_tag(line),
        }
    }

    fn replace_line(&self, existing_line: &str, new_version: &str) -> (s: String) {
        match self {
            SyncableFile::CargoToml(f) => f.replace_line(existing_line, new_version),
            SyncableFile::ProjectGodot(f) => f.replace_line(existing_line, new_version),
        }
    }
}

} // verus!

verus! {

/// Appending text without `sep` to `s` extends the last piece of `s`.
pub proof fn lemma_split_on_append(s: Seq<char>, t: Seq<char>, sep: char)
    requires
        !t.contains(sep),
    ensures
        split_on(s + t, sep) == split_on(s, sep).update(
            split_on(s, sep).len() - 1,
            split_on(s, sep).last() + t,
        ),
    decreases t.len(),
{
    lemma_split_on_nonempty(s, sep);
    let p = split_on(s, sep);
    if t.len() == 0 {
        assert(s + t =~= s);
        assert(p.last() + t =~= p.last());
        assert(p.update(p.len() - 1, p.last()) =~= p);
    } else {
        let t0 = t.drop_last();
        let c = t.last();
        assert(!t0.contains(sep)) by {
            if t0.contains(sep) {
                let k = choose|k: int| 0 <= k < t0.len() && t0[k] == sep;
                assert(t[k] == sep);
            }
        }
        assert(c != sep) by {
            assert(t[t.len() - 1] == c);
        }
        lemma_split_on_append(s, t0, sep);
        assert((s + t).drop_last() =~= s + t0);
        assert((s + t).last() == c);
        let q = split_on(s + t0, sep);
        assert((p.last() + t0).push(c) =~= p.last() + t);
        assert(q.update(q.len() - 1, q.last().push(c)) =~= p.update(p.len() - 1, p.last() + t));
    }
}

/// A line of a Godot project file carries the version exactly when the
/// text `config/version=` occurs in it: such a line is replaced by the
/// version line, and any other line, such as the engine's
/// `config_version=5` header, is kept as it is.
pub proof fn law_godot_version_line_is_config_version(
    f: &ProjectGodotFile,
    line: Seq<char>,
    version: Seq<char>,
)
    ensures
        (forall|i: int|
            0 <= i && i + 15 <= line.len() ==> #[trigger] line.subrange(i, i + 15)
                != "config/version="@) ==> synced_line(f, line, version) == line,
        (exists|i: int|
            0 <= i && i + 15 <= line.len() && #[trigger] line.subrange(i, i + 15)
                == "config/version="@) ==> synced_line(f, line, version) == "config/version=\""@
            + version + "\""@,
{
    reveal_strlit("config/version=");
    assert("config/version="@.len() == 15);
}

/// Setting the version of a Godot project file twice is setting it once.
pub proof fn law_godot_sync_idempotent(f: &ProjectGodotFile, line: Seq<char>, version: Seq<char>)
    ensures
        synced_line(f, synced_line(f, line, version), version) == synced_line(f, line, version),
{
    let l = f.version_line(version);
    reveal_strlit("config/version=\"");
    reveal_strlit("config/version=");
    let pat = "config/version="@;
    assert(l.subrange(0, 0 + pat.len() as int) =~= pat);
}

/// Setting the version of a `Cargo.toml` twice is setting it once, for a
/// version without spaces.
pub proof fn law_cargo_sync_idempotent(f: &CargoTomlFile, line: Seq<char>, version: Seq<char>)
    requires
        !version.contains(' '),
    ensures
        synced_line(f, synced_line(f, line, version), version) == synced_line(f, line, version),
{
    reveal_strlit("version = \"");
    reveal_strlit("version");
    reveal_strlit("=");
    reveal_strlit("\"");
    let quote = "\""@;
    let rest = quote + version + quote;
    assert(!rest.contains(' ')) by {
        if rest.contains(' ') {
            let k = choose|k: int| 0 <= k < rest.len() && rest[k] == ' ';
            if k >= 1 && k < 1 + version.len() {
                assert(version[k - 1] == ' ');
            }
        }
    }
    let e = Seq::<char>::empty();
    let w = "version"@;
    assert(!w.contains(' ')) by {
        if w.contains(' ') {
            let k = choose|k: int| 0 <= k < w.len() && w[k] == ' ';
        }
    }
    assert(!"="@.contains(' ')) by {
        if "="@.contains(' ') {
            let k = choose|k: int| 0 <= k < "="@.len() && "="@[k] == ' ';
        }
    }
    lemma_split_on_append(e, w, ' ');
    assert(split_on(e, ' ') == seq![e]);
    assert(e + w =~= w);
    assert(split_on(w, ' ') =~= seq![w]);
    let s1 = w.push(' ');
    assert(s1.drop_last() =~= w);
    assert(split_on(s1, ' ') =~= seq![w, e]);
    lemma_split_on_append(s1, "="@, ' ');
    let s2 = s1 + "="@;
    assert(split_on(s2, ' ') =~= seq![w, "="@]);
    let s3 = s2.push(' ');
    assert(s3.drop_last() =~= s2);
    assert(split_on(s3, ' ') =~= seq![w, "="@, e]);
    lemma_split_on_append(s3, rest, ' ');
    assert(f.version_line(version) =~= s3 + rest);
    assert(split_on(s3 + rest, ' ') =~= seq![w, "="@, rest]);
}

} // verus!
