//! What the model is told before a conversation: the instructions of the user
//! and of the project, and the skills that can be read.
use crate::agent::state;
use crate::json::Json;
use crate::text;
use crate::textmap;
use crate::tools::arguments;
use crate::tools::arguments::{Shape, Slot};
use crate::textmap::TextMap;
use vstd::prelude::*;
use vstd::string::*;

verus! {

/// The size of the largest file that is read, in bytes.
pub const MAX_FILE_BYTES: u64 = 512 * 1024;

/// The skills that were found, by name, and the files that hold them.
pub struct SkillCatalog {
    pub entries: TextMap<String>,
}

/// A skill as the model is told of it.
pub open spec fn skill_line(entry: (Seq<char>, Seq<char>)) -> Seq<char> {
    "- "@ + entry.0 + ": "@ + entry.1
}

/// The skills as the model is told of them.
pub open spec fn skill_lines(entries: Seq<(Seq<char>, Seq<char>)>) -> Seq<Seq<char>> {
    entries.map_values(|entry: (Seq<char>, Seq<char>)| skill_line(entry))
}

impl View for SkillCatalog {
    type V = Seq<(Seq<char>, Seq<char>)>;

    open spec fn view(&self) -> Seq<(Seq<char>, Seq<char>)> {
        self.entries@
    }
}

impl SkillCatalog {
    /// The skills stand in the order of their names, each name once.
    pub open spec fn wf(&self) -> bool {
        self.entries.wf()
    }

    pub fn new() -> (r: SkillCatalog)
        ensures
            r.wf(),
            r@ == Seq::<(Seq<char>, Seq<char>)>::empty(),
    {
        SkillCatalog { entries: TextMap::new() }
    }

    /// Adds a skill. One that was found later takes the place of one with the
    /// same name.
    pub fn insert(&mut self, name: String, path: String)
        requires
            old(self).wf(),
        ensures
            final(self).wf(),
            final(self)@ == textmap::inserted(old(self)@, name@, path@),
    {
        self.entries.insert(name, path);
    }

    /// The skills as the model is told of them.
    pub fn names_and_paths(&self) -> (r: Vec<String>)
        requires
            self.wf(),
        ensures
            text::views(r@) == skill_lines(self@),
    {
        let ghost goal = skill_lines(self@);
        let mut r: Vec<String> = Vec::new();
        let mut i: usize = 0;
        assert(text::views(r@) =~= goal.take(0));
        while i < self.entries.entries.len()
            invariant
                i <= self.entries.entries@.len(),
                goal == skill_lines(self@),
                text::views(r@) == goal.take(i as int),
            decreases self.entries.entries@.len() - i,
        {
            let entry = &self.entries.entries[i];
            assert(self@[i as int] == (entry.0@, entry.1@));
            let mut line = text::concat("- ", entry.0.as_str());
            line.append(": ");
            line.append(entry.1.as_str());
            proof {
                text::lemma_views_push(r@, line);
                assert(goal.take(i + 1) =~= goal.take(i as int).push(line@));
            }
            r.push(line);
            i = i + 1;
        }
        assert(goal.take(goal.len() as int) =~= goal);
        r
    }

    /// The file that holds a skill.
    pub fn path(&self, name: &str) -> (r: Option<&str>)
        requires
            self.wf(),
        ensures
            match r {
                Some(path) => textmap::lookup(self@, name@) == Some(path@),
                None => textmap::lookup(self@, name@) is None,
            },
    {
        match self.entries.get(name) {
            Some(path) => Some(path.as_str()),
            None => None,
        }
    }

    /// The skills, each with the file that holds it.
    pub fn into_entries(self) -> (r: Vec<(String, String)>)
        ensures
            file_views(r@) == self@,
    {
        let r = self.entries.entries;
        assert(file_views(r@) =~= self@);
        r
    }

    /// The file that the skill named in `arguments` is in, or why there is
    /// none.
    pub fn requested(&self, arguments: &Json) -> (r: Result<String, String>)
        requires
            self.wf(),
        ensures
            match arguments::fault(arguments@, "Args"@, skill_slots()) {
                Some(fault) => r is Err && r->Err_0@ == arguments::refusal("read_skill"@, fault),
                None => {
                    let name = arguments::text_of(
                        arguments::given(arguments@, skill_slots(), 0),
                    )->0;
                    match textmap::lookup(self@, name) {
                        Some(path) => r is Ok && r->Ok_0@ == path,
                        None => r is Err && r->Err_0@ == "unknown skill "@ + text::debug_quoted(
                            name,
                        ),
                    }
                },
            },
    {
        let slots: Vec<Slot> = vec![arguments::needed_slot("name", Shape::Text)];
        assert(text::views(slots@) =~= skill_slots());
        match arguments::check_arguments(arguments, "read_skill", "Args", &slots) {
            Ok(_) => {},
            Err(message) => {
                return Err(message);
            },
        }
        assert(arguments::suits(arguments::given(arguments@, skill_slots(), 0), slots@[0]@));
        let name = arguments::given_text(arguments, &slots, 0);
        match self.path(name.as_str()) {
            Some(path) => Ok(path.to_owned()),
            None => {
                let quoted = text::debug_text(name.as_str());
                Err(text::concat("unknown skill ", quoted.as_str()))
            },
        }
    }
}

/// The arguments of `read_skill`.
pub open spec fn skill_slots() -> Seq<arguments::SlotView> {
    seq![arguments::needed("name"@, Shape::Text)]
}

/// A skill that was found again is found where it was found last, and the
/// others stay where they are.
pub proof fn law_later_skills_win(
    entries: Seq<(Seq<char>, Seq<char>)>,
    name: Seq<char>,
    path: Seq<char>,
    other: Seq<char>,
)
    requires
        textmap::sorted(entries),
        other != name,
    ensures
        textmap::lookup(textmap::inserted(entries, name, path), name) == Some(path),
        textmap::lookup(textmap::inserted(entries, name, path), other) == textmap::lookup(
            entries,
            other,
        ),
{
    textmap::lemma_inserted(entries, name, path);
}

/// Refuses a file that is too large. `kind` says what it was to be read as.
pub fn check_size(kind: &str, path: &str, bytes: u64) -> (r: Result<(), String>)
    ensures
        match r {
            Ok(_) => bytes <= MAX_FILE_BYTES,
            Err(message) => bytes > MAX_FILE_BYTES && message@ == kind@ + " "@ + path@
                + " exceeds "@ + text::decimal(MAX_FILE_BYTES as nat) + " bytes"@,
        },
{
    if bytes <= MAX_FILE_BYTES {
        return Ok(());
    }
    let limit = text::decimal_of(MAX_FILE_BYTES);
    let mut message = text::concat(kind, " ");
    message.append(path);
    message.append(" exceeds ");
    message.append(limit.as_str());
    message.append(" bytes");
    Err(message)
}

/// A file of instructions as the model is told of it.
pub open spec fn instruction_part(file: (Seq<char>, Seq<char>)) -> Seq<char> {
    "[Instructions from "@ + file.0 + "]\n"@ + file.1
}

/// The parts of what the model is told: who it is, the files of instructions,
/// and the skills where there are any.
pub open spec fn instruction_parts(
    files: Seq<(Seq<char>, Seq<char>)>,
    skills: Seq<(Seq<char>, Seq<char>)>,
) -> Seq<Seq<char>> {
    let told = seq![state::SYSTEM_PROMPT@] + files.map_values(
        |file: (Seq<char>, Seq<char>)| instruction_part(file),
    );
    if skills.len() == 0 {
        told
    } else {
        told.push("[Available skills]\n"@ + text::join(skill_lines(skills), "\n"@))
    }
}

pub open spec fn file_views(files: Seq<(String, String)>) -> Seq<(Seq<char>, Seq<char>)> {
    files.map_values(|file: (String, String)| (file.0@, file.1@))
}

/// What the model is told, given the files of instructions that were read, each
/// with its path.
pub fn assemble(files: &Vec<(String, String)>, skills: &SkillCatalog) -> (r: String)
    requires
        skills.wf(),
    ensures
        r@ == text::join(instruction_parts(file_views(files@), skills@), "\n\n"@),
{
    let ghost model = file_views(files@);
    let ghost told = model.map_values(|file: (Seq<char>, Seq<char>)| instruction_part(file));
    let mut parts: Vec<String> = Vec::new();
    parts.push(state::SYSTEM_PROMPT.to_owned());
    assert(text::views(parts@) =~= seq![state::SYSTEM_PROMPT@] + told.take(0));
    let mut i: usize = 0;
    while i < files.len()
        invariant
            i <= files@.len(),
            model == file_views(files@),
            told == model.map_values(|file: (Seq<char>, Seq<char>)| instruction_part(file)),
            text::views(parts@) == seq![state::SYSTEM_PROMPT@] + told.take(i as int),
        decreases files@.len() - i,
    {
        let file = &files[i];
        assert(model[i as int] == (file.0@, file.1@));
        let mut part = text::concat("[Instructions from ", file.0.as_str());
        part.append("]\n");
        part.append(file.1.as_str());
        proof {
            text::lemma_views_push(parts@, part);
            assert(told[i as int] == part@);
            assert(seq![state::SYSTEM_PROMPT@] + told.take(i + 1) =~= (seq![state::SYSTEM_PROMPT@]
                + told.take(i as int)).push(part@));
        }
        parts.push(part);
        i = i + 1;
    }
    assert(told.take(told.len() as int) =~= told);
    let lines = skills.names_and_paths();
    proof {
        assert(lines@.len() == text::views(lines@).len());
    }
    if lines.len() > 0 {
        let joined = text::join_of(&lines, "\n");
        let part = text::concat("[Available skills]\n", joined.as_str());
        proof {
            text::lemma_views_push(parts@, part);
        }
        parts.push(part);
    }
    text::join_of(&parts, "\n\n")
}

/// The model is told who it is, then every file of instructions, whole and with
/// its path, in their order, and last every skill with its path, in their order,
/// where there are any.
pub proof fn law_every_instruction_is_told(
    files: Seq<(Seq<char>, Seq<char>)>,
    skills: Seq<(Seq<char>, Seq<char>)>,
)
    ensures
        ({
            let parts = instruction_parts(files, skills);
            &&& parts.len() == 1 + files.len() + (if skills.len() > 0 {
                1nat
            } else {
                0
            })
            &&& parts[0] == state::SYSTEM_PROMPT@
            &&& forall|i: int|
                0 <= i < files.len() ==> {
                    let part = parts[1 + i];
                    let content = (#[trigger] files[i]).1;
                    &&& part.len() == content.len() + files[i].0.len() + 21
                    &&& part.skip(part.len() - content.len()) == content
                    &&& part.skip(19).take(files[i].0.len() as int) == files[i].0
                }
            &&& skills.len() > 0 ==> {
                let part = parts.last();
                let listed = part.skip(19);
                &&& part.take(19) == "[Available skills]\n"@
                &&& (forall|k: int|
                    0 <= k < skills.len() ==> !(#[trigger] skills[k]).0.contains('\n')
                        && !skills[k].1.contains('\n')) ==> {
                    let lines = text::split(listed, '\n');
                    &&& lines.len() == skills.len()
                    &&& forall|k: int|
                        0 <= k < skills.len() ==> lines[k] == "- "@ + (#[trigger] skills[k]).0
                            + ": "@ + skills[k].1
                }
            }
        }),
{
    let parts = instruction_parts(files, skills);
    reveal_strlit("[Instructions from ");
    reveal_strlit("]\n");
    reveal_strlit("[Available skills]\n");
    reveal_strlit("- ");
    reveal_strlit(": ");
    reveal_strlit("\n");
    assert forall|i: int| 0 <= i < files.len() implies {
        let part = parts[1 + i];
        let content = (#[trigger] files[i]).1;
        &&& part.len() == content.len() + files[i].0.len() + 21
        &&& part.skip(part.len() - content.len()) == content
        &&& part.skip(19).take(files[i].0.len() as int) == files[i].0
    } by {
        let part = parts[1 + i];
        assert(part == instruction_part(files[i]));
        assert(part.skip(part.len() - files[i].1.len()) =~= files[i].1);
        assert(part.skip(19).take(files[i].0.len() as int) =~= files[i].0);
    }
    if skills.len() > 0 {
        let part = parts.last();
        let lines = skill_lines(skills);
        assert(part.take(19) =~= "[Available skills]\n"@);
        assert(part.skip(19) =~= text::join(lines, "\n"@));
        if forall|k: int|
            0 <= k < skills.len() ==> !(#[trigger] skills[k]).0.contains('\n')
                && !skills[k].1.contains('\n') {
            assert forall|k: int| 0 <= k < lines.len() implies !(#[trigger] lines[k]).contains(
                '\n',
            ) by {
                let (name, path) = skills[k];
                assert forall|j: int| 0 <= j < lines[k].len() implies lines[k][j] != '\n' by {
                    if 2 <= j < 2 + name.len() {
                        assert(lines[k][j] == name[j - 2]);
                        assert(name.contains(name[j - 2]));
                    } else if j >= 4 + name.len() {
                        assert(lines[k][j] == path[j - 4 - name.len()]);
                        assert(path.contains(path[j - 4 - name.len()]));
                    }
                }
            }
            assert("\n"@ =~= seq!['\n']);
            text::law_joined_is_split(lines, '\n');
            assert forall|k: int| 0 <= k < skills.len() implies lines[k] == "- "@ + (
            #[trigger] skills[k]).0 + ": "@ + skills[k].1 by {}
        }
    }
}

} // verus!
