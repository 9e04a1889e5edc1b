//! `list_skills`: every `SKILL.md` folder that a laboratory's `find` reports.

use vstd::prelude::*;

use crate::mcp::common::{bash_tool, bash_tool_name, laboratory_id, laboratory_id_of, McpServer};
use crate::text::{
    chars_of, last_index_in, last_index_of, lemma_last_index_of_bounds, lemma_split_lines_single,
    split_lines, trim, trimmed_bounds,
};

verus! {

/// Bash command run inside each laboratory to locate every `SKILL.md`
/// (case-insensitive), pruning pseudo-filesystems for speed.
pub const FIND_CMD: &'static str = "find / \\( -path /proc -o -path /sys -o -path /dev \\) -prune -o -type f -iname 'SKILL.md' -print 2>/dev/null";

/// One discovered skill: the laboratory it lives in, the folder name (the
/// skill's name), and that folder's path within the laboratory.
pub struct SkillItem {
    pub laboratory_id: String,
    pub name: String,
    pub path: String,
}

/// A skill item as text: what a [`SkillItem`] holds.
#[verifier::ext_equal]
pub struct SkillEntry {
    pub laboratory_id: Seq<char>,
    pub name: Seq<char>,
    pub path: Seq<char>,
}

impl View for SkillItem {
    type V = SkillEntry;

    open spec fn view(&self) -> SkillEntry {
        SkillEntry { laboratory_id: self.laboratory_id@, name: self.name@, path: self.path@ }
    }
}

/// The views of a list of items.
pub open spec fn entries_of(items: Seq<SkillItem>) -> Seq<SkillEntry> {
    items.map_values(|it: SkillItem| it@)
}

/// The last `/`-separated component of `dir` (all of it when it has no `/`).
pub open spec fn last_segment(dir: Seq<char>) -> Seq<char> {
    match last_index_of(dir, '/') {
        Some(k) => dir.skip(k + 1),
        None => dir,
    }
}

/// The skill folder that one line of `find` output names, as `(name, path)`:
/// the line, trimmed, must hold a `/` after its first character; the path is
/// what stands before the last `/`, and the name is the last component of that
/// path, which must not be empty. A file at the root (`/SKILL.md`), a bare
/// relative name and a blank line name no folder.
pub open spec fn skill_folder(line: Seq<char>) -> Option<(Seq<char>, Seq<char>)> {
    let p = trim(line);
    match last_index_of(p, '/') {
        Some(i) => {
            let dir = p.take(i);
            if i > 0 && last_segment(dir).len() > 0 {
                Some((last_segment(dir), dir))
            } else {
                None
            }
        },
        None => None,
    }
}

/// The items that `lines` yield for laboratory `lab`, one per line that names
/// a folder, in the order of the lines, duplicates kept.
pub open spec fn skill_entries(lab: Seq<char>, lines: Seq<Seq<char>>) -> Seq<SkillEntry>
    decreases lines.len(),
{
    if lines.len() == 0 {
        Seq::empty()
    } else {
        let init = skill_entries(lab, lines.drop_last());
        match skill_folder(lines.last()) {
            Some((name, path)) => init.push(SkillEntry { laboratory_id: lab, name, path }),
            None => init,
        }
    }
}

/// The item, if any, that the line `cs[lo..hi]` of `stdout` names.
fn skill_in_line(stdout: &str, cs: &Vec<char>, lo: usize, hi: usize, lab_id: &str) -> (r: Option<
    SkillItem,
>)
    requires
        cs@ == stdout@,
        lo <= hi <= cs@.len(),
    ensures
        r matches Some(it) ==> skill_folder(cs@.subrange(lo as int, hi as int)) == Some(
            (it.name@, it.path@),
        ) && it.laboratory_id@ == lab_id@,
        r is None ==> skill_folder(cs@.subrange(lo as int, hi as int)) is None,
{
    let (a, b) = trimmed_bounds(cs, lo, hi);
    let ghost p = cs@.subrange(a as int, b as int);
    match last_index_in(cs, a, b, '/') {
        None => None,
        Some(k) => {
            if k == a {
                return None;
            }
            let ghost dir = p.take(k - a);
            assert(dir =~= cs@.subrange(a as int, k as int));
            let start = match last_index_in(cs, a, k, '/') {
                Some(m) => {
                    assert(dir.skip(m + 1 - a) =~= cs@.subrange(m + 1, k as int));
                    m + 1
                },
                None => a,
            };
            if start == k {
                return None;
            }
            let name = stdout.substring_char(start, k).to_owned();
            let path = stdout.substring_char(a, k).to_owned();
            let laboratory_id = lab_id.to_owned();
            Some(SkillItem { laboratory_id, name, path })
        },
    }
}

/// Parse `find` stdout into skill items. Each line is a `SKILL.md` path; the
/// skill name is its containing folder and the path is that folder. A `SKILL.md`
/// at the filesystem root (`/SKILL.md`) is excluded. Duplicates are kept.
///
/// Paths are split on `/` by hand, with Linux semantics whatever the host.
pub fn parse_skill_paths(lab_id: &str, stdout: &str) -> (r: Vec<SkillItem>)
    ensures
        entries_of(r@) == skill_entries(lab_id@, split_lines(stdout@)),
{
    let cs = chars_of(stdout);
    let n = cs.len();
    let mut items: Vec<SkillItem> = Vec::new();
    let mut start: usize = 0;
    let ghost mut done: Seq<Seq<char>> = Seq::empty();
    let mut i: usize = 0;
    assert(cs@.take(0) =~= Seq::<char>::empty());
    assert(done.push(cs@.subrange(0, 0)) =~= seq![Seq::<char>::empty()]);
    while i < n
        invariant
            n == cs@.len(),
            cs@ == stdout@,
            start <= i <= n,
            split_lines(cs@.take(i as int)) == done.push(cs@.subrange(start as int, i as int)),
            entries_of(items@) == skill_entries(lab_id@, done),
        decreases n - i,
    {
        assert(cs@.take(i + 1).drop_last() =~= cs@.take(i as int));
        if cs[i] == '\n' {
            let found = skill_in_line(stdout, &cs, start, i, lab_id);
            let ghost line = cs@.subrange(start as int, i as int);
            assert(done.push(line).drop_last() =~= done);
            let ghost before = items@;
            match found {
                Some(it) => {
                    items.push(it);
                    assert(entries_of(items@) =~= entries_of(before).push(it@));
                },
                None => {},
            }
            proof {
                done = done.push(line);
            }
            start = i + 1;
            assert(cs@.subrange(start as int, i + 1) =~= Seq::<char>::empty());
        } else {
            assert(cs@.subrange(start as int, i as int).push(cs@[i as int]) =~= cs@.subrange(
                start as int,
                i + 1,
            ));
        }
        i = i + 1;
    }
    assert(cs@.take(n as int) =~= cs@);
    let found = skill_in_line(stdout, &cs, start, n, lab_id);
    let ghost line = cs@.subrange(start as int, n as int);
    assert(done.push(line).drop_last() =~= done);
    let ghost before = items@;
    match found {
        Some(it) => {
            items.push(it);
            assert(entries_of(items@) =~= entries_of(before).push(it@));
        },
        None => {},
    }
    items
}

/// Each line is read on its own: the items of a concatenation of lines are
/// the items of each part, in order. So a folder reported twice is listed twice.
pub proof fn lemma_skill_entries_append(lab: Seq<char>, a: Seq<Seq<char>>, b: Seq<Seq<char>>)
    ensures
        skill_entries(lab, a + b) == skill_entries(lab, a) + skill_entries(lab, b),
    decreases b.len(),
{
    if b.len() == 0 {
        assert(a + b =~= a);
        assert(skill_entries(lab, a) + skill_entries(lab, b) =~= skill_entries(lab, a));
    } else {
        assert((a + b).drop_last() =~= a + b.drop_last());
        lemma_skill_entries_append(lab, a, b.drop_last());
        match skill_folder(b.last()) {
            Some((name, path)) => {
                let e = SkillEntry { laboratory_id: lab, name, path };
                assert(skill_entries(lab, a) + skill_entries(lab, b.drop_last()).push(e) =~= (
                skill_entries(lab, a) + skill_entries(lab, b.drop_last())).push(e));
            },
            None => {},
        }
    }
}

/// Every item is tagged with the laboratory it was listed for, and names a
/// folder that one of the lines reports.
pub proof fn lemma_skill_entries_from_lines(lab: Seq<char>, lines: Seq<Seq<char>>)
    ensures
        forall|k: int|
            0 <= k < skill_entries(lab, lines).len() ==> (#[trigger] skill_entries(lab, lines)[k]).laboratory_id
                == lab && exists|i: int|
                0 <= i < lines.len() && skill_folder(#[trigger] lines[i]) == Some(
                    (skill_entries(lab, lines)[k].name, skill_entries(lab, lines)[k].path),
                ),
    decreases lines.len(),
{
    if lines.len() > 0 {
        let init = lines.drop_last();
        lemma_skill_entries_from_lines(lab, init);
        assert forall|k: int| 0 <= k < skill_entries(lab, lines).len() implies (
        #[trigger] skill_entries(lab, lines)[k]).laboratory_id == lab && exists|i: int|
            0 <= i < lines.len() && skill_folder(#[trigger] lines[i]) == Some(
                (skill_entries(lab, lines)[k].name, skill_entries(lab, lines)[k].path),
            ) by {
            if k < skill_entries(lab, init).len() {
                let i = choose|i: int|
                    0 <= i < init.len() && skill_folder(#[trigger] init[i]) == Some(
                        (skill_entries(lab, init)[k].name, skill_entries(lab, init)[k].path),
                    );
                assert(lines[i] == init[i]);
            } else {
                assert(lines[lines.len() - 1] == lines.last());
            }
        }
    }
}

/// The shape of a listed folder: the trimmed line is the folder's path, a `/`,
/// and a file name without `/`; the path is not empty (so a file at the root,
/// `/SKILL.md`, lists nothing); the name is the path's last component: not
/// empty, without `/`, and either the whole path or preceded by a `/`.
pub proof fn lemma_skill_folder_shape(line: Seq<char>)
    ensures
        skill_folder(line) matches Some((name, path)) ==> {
            let p = trim(line);
            let file = p.skip(path.len() + 1int);
            &&& p == path + seq!['/'] + file
            &&& forall|j: int| 0 <= j < file.len() ==> #[trigger] file[j] != '/'
            &&& path.len() > 0
            &&& name.len() > 0
            &&& forall|j: int| 0 <= j < name.len() ==> #[trigger] name[j] != '/'
            &&& path.len() >= name.len()
            &&& path.skip(path.len() - name.len()) == name
            &&& (path.len() == name.len() || path[path.len() - name.len() - 1] == '/')
        },
{
    let p = trim(line);
    lemma_last_index_of_bounds(p, '/');
    match last_index_of(p, '/') {
        Some(i) => {
            let dir = p.take(i);
            lemma_last_index_of_bounds(dir, '/');
            if i > 0 && last_segment(dir).len() > 0 {
                let file = p.skip(i + 1);
                assert(p =~= dir + seq!['/'] + file);
                assert forall|j: int| 0 <= j < file.len() implies #[trigger] file[j] != '/' by {
                    assert(file[j] == p[i + 1 + j]);
                }
                match last_index_of(dir, '/') {
                    Some(k) => {
                        let name = dir.skip(k + 1);
                        assert(dir.skip(dir.len() - name.len()) =~= name);
                        assert forall|j: int| 0 <= j < name.len() implies #[trigger] name[j]
                            != '/' by {
                            assert(name[j] == dir[k + 1 + j]);
                        }
                    },
                    None => {
                        assert(dir.skip(0) =~= dir);
                    },
                }
            }
        },
        None => {},
    }
}

proof fn lemma_last_slash_before_file(dir: Seq<char>, file: Seq<char>)
    requires
        forall|j: int| 0 <= j < file.len() ==> #[trigger] file[j] != '/',
    ensures
        last_index_of(dir + seq!['/'] + file, '/') == Some(dir.len() as int),
    decreases file.len(),
{
    let w = dir + seq!['/'] + file;
    if file.len() == 0 {
        assert(w.last() == '/');
    } else {
        assert(w.drop_last() =~= dir + seq!['/'] + file.drop_last());
        assert(w.last() == file[file.len() - 1]);
        lemma_last_slash_before_file(dir, file.drop_last());
    }
}

/// Only the folder matters: two lines that trim to the same folder followed
/// by `/` and a file name without `/` (whatever the names, whatever their
/// letter case) name the same skill folder, or none alike.
pub proof fn lemma_file_name_irrelevant(
    line1: Seq<char>,
    line2: Seq<char>,
    dir: Seq<char>,
    file1: Seq<char>,
    file2: Seq<char>,
)
    requires
        trim(line1) == dir + seq!['/'] + file1,
        trim(line2) == dir + seq!['/'] + file2,
        forall|j: int| 0 <= j < file1.len() ==> #[trigger] file1[j] != '/',
        forall|j: int| 0 <= j < file2.len() ==> #[trigger] file2[j] != '/',
    ensures
        skill_folder(line1) == skill_folder(line2),
{
    lemma_last_slash_before_file(dir, file1);
    lemma_last_slash_before_file(dir, file2);
    assert(trim(line1).take(dir.len() as int) =~= dir);
    assert(trim(line2).take(dir.len() as int) =~= dir);
}

/// A line that trims to a folder `parent + name`, a `/` and a file name, with
/// `name` a non-empty last component (no `/` in it, `parent` empty or ending
/// in `/`) and no `/` in the file name, always names that folder: its name is
/// `name` whole, however long, and its path is `parent + name`.
pub proof fn lemma_folder_line_names_its_folder(
    line: Seq<char>,
    parent: Seq<char>,
    name: Seq<char>,
    file: Seq<char>,
)
    requires
        trim(line) == parent + name + seq!['/'] + file,
        name.len() > 0,
        forall|j: int| 0 <= j < name.len() ==> #[trigger] name[j] != '/',
        forall|j: int| 0 <= j < file.len() ==> #[trigger] file[j] != '/',
        parent.len() == 0 || parent.last() == '/',
    ensures
        skill_folder(line) == Some((name, parent + name)),
{
    let dir = parent + name;
    let p = trim(line);
    lemma_last_slash_before_file(dir, file);
    assert(p.take(dir.len() as int) =~= dir);
    if parent.len() == 0 {
        assert(dir =~= name);
        lemma_last_index_of_bounds(name, '/');
        if last_index_of(name, '/') is Some {
            let k = last_index_of(name, '/')->0;
            assert(name[k] == '/');
        }
        assert(dir.skip(0) =~= dir);
    } else {
        let up = parent.drop_last();
        assert(up + seq!['/'] + name =~= dir);
        lemma_last_slash_before_file(up, name);
        assert(dir.skip(parent.len() as int) =~= name);
    }
}

/// One such line, ended by a line feed, lists exactly one item: that folder,
/// tagged with the laboratory.
pub proof fn lemma_one_folder_line_one_item(
    lab: Seq<char>,
    line: Seq<char>,
    parent: Seq<char>,
    name: Seq<char>,
    file: Seq<char>,
)
    requires
        forall|j: int| 0 <= j < line.len() ==> #[trigger] line[j] != '\n',
        trim(line) == parent + name + seq!['/'] + file,
        name.len() > 0,
        forall|j: int| 0 <= j < name.len() ==> #[trigger] name[j] != '/',
        forall|j: int| 0 <= j < file.len() ==> #[trigger] file[j] != '/',
        parent.len() == 0 || parent.last() == '/',
    ensures
        skill_entries(lab, split_lines(line + seq!['\n'])) == seq![
            SkillEntry { laboratory_id: lab, name, path: parent + name },
        ],
{
    lemma_folder_line_names_its_folder(line, parent, name, file);
    lemma_split_lines_single(line);
    let w = line + seq!['\n'];
    assert(w.drop_last() =~= line);
    let lines = split_lines(w);
    assert(lines =~= seq![line, Seq::<char>::empty()]);
    assert(lines.drop_last() =~= seq![line]);
    assert(seq![line].drop_last() =~= Seq::<Seq<char>>::empty());
    assert(trim(Seq::<char>::empty()) =~= Seq::<char>::empty());
    assert(skill_folder(Seq::<char>::empty()) is None);
    let e = SkillEntry { laboratory_id: lab, name, path: parent + name };
    assert(seq![line].last() == line);
    assert(skill_entries(lab, Seq::<Seq<char>>::empty()) == Seq::<SkillEntry>::empty());
    assert(skill_entries(lab, seq![line]) == Seq::<SkillEntry>::empty().push(e));
    assert(skill_entries(lab, lines) == skill_entries(lab, seq![line]));
    assert(Seq::<SkillEntry>::empty().push(
        SkillEntry { laboratory_id: lab, name, path: parent + name },
    ) =~= seq![SkillEntry { laboratory_id: lab, name, path: parent + name }]);
}

/// Whether two lists of lines differ at most in file names: line by line,
/// equal, or trimming to the same folder followed by `/` and a file name
/// without `/`.
pub open spec fn same_folders(lines1: Seq<Seq<char>>, lines2: Seq<Seq<char>>) -> bool {
    &&& lines1.len() == lines2.len()
    &&& forall|i: int|
        0 <= i < lines1.len() ==> #[trigger] lines1[i] == lines2[i] || exists|
            dir: Seq<char>,
            file1: Seq<char>,
            file2: Seq<char>,
        |
            trim(lines1[i]) == dir + seq!['/'] + file1 && trim(lines2[i]) == dir + seq!['/'] + file2
                && (forall|j: int| 0 <= j < file1.len() ==> #[trigger] file1[j] != '/') && (forall|
                j: int,
            |
                0 <= j < file2.len() ==> #[trigger] file2[j] != '/')
}

/// Listings whose lines differ only in file names give the same items: the
/// file a `find` line names never changes the folder listed.
pub proof fn lemma_skill_entries_ignore_file_names(
    lab: Seq<char>,
    lines1: Seq<Seq<char>>,
    lines2: Seq<Seq<char>>,
)
    requires
        same_folders(lines1, lines2),
    ensures
        skill_entries(lab, lines1) == skill_entries(lab, lines2),
    decreases lines1.len(),
{
    if lines1.len() > 0 {
        let n = lines1.len() - 1;
        assert(same_folders(lines1.drop_last(), lines2.drop_last())) by {
            assert forall|i: int| 0 <= i < lines1.drop_last().len() implies #[trigger] lines1.drop_last()[i]
                == lines2.drop_last()[i] || exists|dir: Seq<char>, file1: Seq<char>, file2: Seq<char>|
                trim(lines1.drop_last()[i]) == dir + seq!['/'] + file1 && trim(
                    lines2.drop_last()[i],
                ) == dir + seq!['/'] + file2 && (forall|j: int|
                    0 <= j < file1.len() ==> #[trigger] file1[j] != '/') && (forall|j: int|
                    0 <= j < file2.len() ==> #[trigger] file2[j] != '/') by {
                assert(lines1.drop_last()[i] == lines1[i]);
                assert(lines2.drop_last()[i] == lines2[i]);
            }
        }
        lemma_skill_entries_ignore_file_names(lab, lines1.drop_last(), lines2.drop_last());
        assert(lines1.last() == lines1[n] && lines2.last() == lines2[n]);
        if lines1[n] != lines2[n] {
            let (dir, file1, file2) = choose|dir: Seq<char>, file1: Seq<char>, file2: Seq<char>|
                trim(lines1[n]) == dir + seq!['/'] + file1 && trim(lines2[n]) == dir + seq!['/']
                    + file2 && (forall|j: int| 0 <= j < file1.len() ==> #[trigger] file1[j] != '/')
                    && (forall|j: int| 0 <= j < file2.len() ==> #[trigger] file2[j] != '/');
            lemma_file_name_irrelevant(lines1[n], lines2[n], dir, file1, file2);
        }
    }
}

/// The laboratories among the servers, as (laboratory id, `Bash` tool name),
/// in order.
pub open spec fn lab_targets_of(servers: Seq<McpServer>) -> Seq<(Seq<char>, Seq<char>)>
    decreases servers.len(),
{
    if servers.len() == 0 {
        Seq::empty()
    } else {
        let init = lab_targets_of(servers.drop_last());
        match laboratory_id_of(servers.last()) {
            Some(id) => init.push((id, bash_tool_name(servers.last().name@))),
            None => init,
        }
    }
}

/// A list of pairs of strings, as text.
pub open spec fn pairs_view(v: Seq<(String, String)>) -> Seq<(Seq<char>, Seq<char>)> {
    v.map_values(|p: (String, String)| (p.0@, p.1@))
}

/// Keep only laboratories; capture (lab id, its `Bash` tool name).
pub fn lab_targets(servers: &Vec<McpServer>) -> (r: Vec<(String, String)>)
    ensures
        pairs_view(r@) == lab_targets_of(servers@),
{
    let mut r: Vec<(String, String)> = Vec::new();
    let mut i: usize = 0;
    while i < servers.len()
        invariant
            i <= servers@.len(),
            pairs_view(r@) == lab_targets_of(servers@.take(i as int)),
        decreases servers@.len() - i,
    {
        assert(servers@.take(i + 1).drop_last() =~= servers@.take(i as int));
        let ghost before = r@;
        match laboratory_id(&servers[i]) {
            Some(id) => {
                let pair = (id.to_owned(), bash_tool(&servers[i]));
                r.push(pair);
                assert(pairs_view(r@) =~= pairs_view(before).push((pair.0@, pair.1@)));
            },
            None => {},
        }
        i = i + 1;
    }
    assert(servers@.take(servers@.len() as int) =~= servers@);
    r
}

/// The items from all laboratories, each laboratory's in turn; a laboratory
/// whose `find` failed (`None`) contributes nothing.
pub open spec fn gathered_entries(labs: Seq<Seq<char>>, stdouts: Seq<Option<Seq<char>>>) -> Seq<
    SkillEntry,
>
    decreases stdouts.len(),
{
    if stdouts.len() == 0 {
        Seq::empty()
    } else {
        let init = gathered_entries(labs, stdouts.drop_last());
        match stdouts.last() {
            Some(out) => init + skill_entries(labs[stdouts.len() - 1], split_lines(out)),
            None => init,
        }
    }
}

/// Whether `id` is the id of a laboratory whose `find` answered.
pub open spec fn answered(labs: Seq<Seq<char>>, stdouts: Seq<Option<Seq<char>>>, id: Seq<char>) -> bool {
    exists|i: int| 0 <= i < stdouts.len() && stdouts[i] is Some && #[trigger] labs[i] == id
}

/// Every gathered item carries the id of a laboratory whose `find` answered.
pub proof fn lemma_gathered_entries_tagged(labs: Seq<Seq<char>>, stdouts: Seq<Option<Seq<char>>>)
    requires
        labs.len() == stdouts.len(),
    ensures
        forall|k: int|
            0 <= k < gathered_entries(labs, stdouts).len() ==> answered(
                labs,
                stdouts,
                (#[trigger] gathered_entries(labs, stdouts)[k]).laboratory_id,
            ),
    decreases stdouts.len(),
{
    if stdouts.len() > 0 {
        let init = stdouts.drop_last();
        let n = stdouts.len() - 1;
        lemma_gathered_entries_tagged(labs.drop_last(), init);
        lemma_gathered_prefix(labs, init);
        let g = gathered_entries(labs, stdouts);
        let h = gathered_entries(labs, init);
        assert forall|k: int| 0 <= k < g.len() implies answered(
            labs,
            stdouts,
            (#[trigger] g[k]).laboratory_id,
        ) by {
            if k < h.len() {
                assert(answered(labs.drop_last(), init, h[k].laboratory_id));
                let i = choose|i: int|
                    0 <= i < init.len() && init[i] is Some && #[trigger] labs.drop_last()[i]
                        == h[k].laboratory_id;
                assert(stdouts[i] == init[i]);
                assert(labs[i] == labs.drop_last()[i]);
            } else {
                match stdouts.last() {
                    Some(out) => {
                        lemma_skill_entries_from_lines(labs[n], split_lines(out));
                        assert(g[k] == skill_entries(labs[n], split_lines(out))[k - h.len()]);
                        assert(stdouts[n] is Some);
                    },
                    None => {},
                }
            }
        }
    }
}

/// The items gathered for some laboratories do not depend on the ids listed
/// after them.
proof fn lemma_gathered_prefix(labs: Seq<Seq<char>>, stdouts: Seq<Option<Seq<char>>>)
    requires
        stdouts.len() < labs.len(),
    ensures
        gathered_entries(labs, stdouts) == gathered_entries(labs.drop_last(), stdouts),
    decreases stdouts.len(),
{
    if stdouts.len() > 0 {
        lemma_gathered_prefix(labs, stdouts.drop_last());
    }
}

/// The laboratory ids of a list of targets, as text.
pub open spec fn target_ids(labs: Seq<(String, String)>) -> Seq<Seq<char>> {
    labs.map_values(|p: (String, String)| p.0@)
}

/// A list of optional strings, as text.
pub open spec fn outputs_view(v: Seq<Option<String>>) -> Seq<Option<Seq<char>>> {
    v.map_values(
        |o: Option<String>|
            match o {
                Some(s) => Some(s@),
                None => None,
            },
    )
}

/// Collect the items of every laboratory: `stdouts[i]` is what the `find` of
/// laboratory `labs[i]` printed, or `None` when it errored (skipped, not fatal).
pub fn gather_skill_items(labs: &Vec<(String, String)>, stdouts: &Vec<Option<String>>) -> (r: Vec<
    SkillItem,
>)
    requires
        labs@.len() == stdouts@.len(),
    ensures
        entries_of(r@) == gathered_entries(target_ids(labs@), outputs_view(stdouts@)),
{
    let mut r: Vec<SkillItem> = Vec::new();
    let mut i: usize = 0;
    while i < stdouts.len()
        invariant
            labs@.len() == stdouts@.len(),
            i <= stdouts@.len(),
            entries_of(r@) == gathered_entries(
                target_ids(labs@),
                outputs_view(stdouts@).take(i as int),
            ),
        decreases stdouts@.len() - i,
    {
        let ghost outs = outputs_view(stdouts@);
        assert(outs.take(i + 1).drop_last() =~= outs.take(i as int));
        match &stdouts[i] {
            Some(out) => {
                let mut found = parse_skill_paths(labs[i].0.as_str(), out.as_str());
                let ghost before = r@;
                let ghost new_items = found@;
                r.append(&mut found);
                assert(entries_of(r@) =~= entries_of(before) + entries_of(new_items));
            },
            None => {},
        }
        i = i + 1;
    }
    assert(outputs_view(stdouts@).take(stdouts@.len() as int) =~= outputs_view(stdouts@));
    r
}

} // verus!
