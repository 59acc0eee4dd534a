//! Mounting a config file: what is read of it, when it is written, and which entry it belongs to.

use crate::config::{file_text, serialize_config, sorted_list};
use crate::dict::Duplicate;
use crate::entry::{entry_views, group_ref, lemma_entry_view};
use crate::forest::{entry_at, group_at, has_entry, walk, EntryView};
use crate::options::{text_options, EntryOptions, OptionsView};
use crate::patches::{apply_patches, patch_views, patch_warnings, patched, IncludeConfig, PatchView};
use crate::reconcile::options_views;
use crate::text::{concat, same_text, texts};
use crate::tree::EntryTree;
use crate::yaml::{text_result, yaml_notation};
use vstd::prelude::*;

verus! {

/// What is done where the config file is missing.
pub enum MissingFile {
    /// The file is written with this text, and read.
    Initial(String),
    /// The error is logged, and the file counts as empty.
    NotFound(String),
}

/// The text of an initial file; nothing where it has no notation.
pub open spec fn initial_text(notation: Result<Seq<char>, Seq<char>>) -> Seq<char> {
    match file_text(notation) {
        Ok(text) => text,
        Err(_) => Seq::empty(),
    }
}

/// The text, or none where there is only an error.
pub fn text_or_empty(text: Result<String, String>) -> (r: String)
    ensures
        r@ == (match text_result(text) {
            Ok(t) => t,
            Err(_) => Seq::empty(),
        }),
{
    match text {
        Ok(text) => text,
        Err(_) => String::new(),
    }
}

/// What is done where the file `filename` is missing.
pub fn missing_file(config: &IncludeConfig, filename: &str) -> (r: MissingFile)
    ensures
        match config.initial {
            Some(initial) => r is Initial && r->Initial_0@ == initial_text(
                yaml_notation(sorted_list(options_views(initial@))),
            ),
            None => r is NotFound && r->NotFound_0@ == "config file not found: "@ + filename@,
        },
{
    match &config.initial {
        Some(initial) => MissingFile::Initial(text_or_empty(serialize_config(initial))),
        None => MissingFile::NotFound(concat("config file not found: ", filename)),
    }
}

/// The patches of a config.
pub open spec fn patches_of(config: IncludeConfig) -> Seq<PatchView> {
    match config.patches {
        Some(patches) => patch_views(patches@),
        None => Seq::empty(),
    }
}

/// The options that are mounted from those of the file, and the warnings to log.
pub fn mounted_options(config: &IncludeConfig, data: Vec<EntryOptions>) -> (r: (
    Vec<EntryOptions>,
    Vec<String>,
))
    ensures
        options_views(r.0@) == patched(
            options_views(data@),
            patches_of(*config),
            patches_of(*config).len() as int,
        ),
        texts(r.1@) == patch_warnings(
            options_views(data@),
            patches_of(*config),
            patches_of(*config).len() as int,
        ),
{
    match &config.patches {
        Some(patches) => apply_patches(data, patches),
        None => {
            let none: Vec<String> = Vec::new();
            assert(texts(none@) =~= Seq::<Seq<char>>::empty());
            (data, none)
        },
    }
}

/// The state of writing a mounted file back.
#[derive(PartialEq, Eq, Structural, Clone, Copy)]
pub struct WriteState {
    /// Whether the file cannot be written.
    pub readonly: bool,
    /// Whether a write is scheduled.
    pub pending: bool,
}

/// The options of the entries of a group.
pub open spec fn group_entries(es: Seq<EntryView>) -> Seq<OptionsView> {
    Seq::new(es.len(), |i: int| es[i].options)
}

/// What becomes of a write, from the notation of what is written.
pub open spec fn written(readonly: bool, notation: Result<Seq<char>, Seq<char>>) -> Result<
    Seq<char>,
    Seq<char>,
> {
    if readonly {
        Err("cannot overwrite readonly config"@)
    } else {
        file_text(notation)
    }
}

impl WriteState {
    /// No write is scheduled.
    pub fn new(readonly: bool) -> (r: WriteState)
        ensures
            r == (WriteState { readonly, pending: false }),
    {
        WriteState { readonly, pending: false }
    }

    /// Asks for a write; says whether one is to be scheduled. Requests made while one is scheduled
    /// are covered by it.
    pub fn request(&mut self) -> (r: bool)
        ensures
            r == !old(self).pending,
            r == schedules(*old(self)),
            *final(self) == (WriteState { pending: true, ..*old(self) }),
            *final(self) == requested(*old(self)),
    {
        if self.pending {
            return false;
        }
        self.pending = true;
        true
    }

    /// The scheduled write was made.
    pub fn finish(&mut self)
        ensures
            *final(self) == (WriteState { pending: false, ..*old(self) }),
            *final(self) == finished(*old(self)),
    {
        self.pending = false;
    }

    /// The text that the file is written with, from the group at `q`.
    pub fn write_once(&self, tree: &EntryTree, q: &Vec<usize>) -> (r: Result<String, String>)
        requires
            group_at(tree@.root, q@) is Some,
        ensures
            text_result(r) == written(
                self.readonly,
                yaml_notation(sorted_list(group_entries(group_at(tree@.root, q@)->0))),
            ),
    {
        broadcast use lemma_entry_view;

        if self.readonly {
            return Err("cannot overwrite readonly config".to_owned());
        }
        assert(q@.skip(0) =~= q@);
        let group = group_ref(&tree.root.entries, q, 0);
        let ghost es = entry_views(group@);
        let mut out: Vec<EntryOptions> = Vec::new();
        let mut i: usize = 0;
        while i < group.len()
            invariant
                i <= group@.len(),
                out@.len() == i,
                es == entry_views(group@),
                forall|j: int| 0 <= j < i ==> (#[trigger] out@[j])@ == es[j].options,
            decreases group@.len() - i,
        {
            broadcast use lemma_entry_view;

            out.push(group[i].options.duplicate());
            i += 1;
        }
        assert(options_views(out@) =~= group_entries(es));
        serialize_config(&out)
    }
}

/// Whether a request schedules a write.
pub open spec fn schedules(state: WriteState) -> bool {
    !state.pending
}

/// The state after a request.
pub open spec fn requested(state: WriteState) -> WriteState {
    WriteState { pending: true, ..state }
}

/// The state after the scheduled write was made.
pub open spec fn finished(state: WriteState) -> WriteState {
    WriteState { pending: false, ..state }
}

/// Requests for a write, in a row.
pub open spec fn requests(state: WriteState, n: nat) -> WriteState
    decreases n,
{
    if n == 0 {
        state
    } else {
        requested(requests(state, (n - 1) as nat))
    }
}

proof fn lemma_requests(state: WriteState, n: nat)
    requires
        n > 0,
    ensures
        requests(state, n) == (WriteState { pending: true, ..state }),
    decreases n,
{
    if n > 1 {
        lemma_requests(state, (n - 1) as nat);
    } else {
        assert(requests(state, 0) == state);
    }
}

/// However many requests come before a write is made, one write is scheduled for them: the first
/// one schedules it, if none was scheduled before, and none of the others does. Once the write was
/// made the next request schedules one again.
pub proof fn requests_coalesce(state: WriteState, n: nat)
    requires
        n > 0,
    ensures
        !schedules(requests(state, n)),
        !state.pending ==> schedules(state),
        schedules(finished(requests(state, n))),
        requests(state, n).pending,
        requests(requests(state, n), 1) == requests(state, n),
        requests(state, n).readonly == state.readonly,
        finished(state).readonly == state.readonly,
{
    lemma_requests(state, n);
    lemma_requests(requests(state, n), 1);
}

/// The first place of the list whose entry has a subgroup and whose file, listed at the same index,
/// is the wanted one.
pub open spec fn mounted_place(
    es: Seq<EntryView>,
    list: Seq<Seq<usize>>,
    files: Seq<Option<Seq<char>>>,
    file: Seq<char>,
    n: int,
) -> Option<Seq<usize>>
    decreases n,
{
    if n <= 0 {
        None
    } else {
        match mounted_place(es, list, files, file, n - 1) {
            Some(p) => Some(p),
            None => if files[n - 1] == Some(file) && entry_at(es, list[n - 1]).subgroup is Some {
                Some(list[n - 1])
            } else {
                None
            },
        }
    }
}

proof fn lemma_mounted_place(
    es: Seq<EntryView>,
    list: Seq<Seq<usize>>,
    files: Seq<Option<Seq<char>>>,
    file: Seq<char>,
    m: int,
    n: int,
)
    requires
        m <= n,
        mounted_place(es, list, files, file, m) is Some,
    ensures
        mounted_place(es, list, files, file, n) == mounted_place(es, list, files, file, m),
    decreases n - m,
{
    if m < n {
        lemma_mounted_place(es, list, files, file, m, n - 1);
    }
}

impl EntryTree {
    /// The entry that is to be refreshed when `file` changes. `files` lists for every entry, depth
    /// first, the file that it mounts, if it does; `readable` says whether `file` can be read.
    pub fn refresh_target(&self, files: &Vec<Option<String>>, file: &str, readable: bool) -> (r:
        Option<Vec<usize>>)
        requires
            files@.len() == walk(self@.root, Seq::empty()).len(),
        ensures
            match r {
                Some(p) => readable && has_entry(self@.root, p@) && mounted_place(
                    self@.root,
                    walk(self@.root, Seq::empty()),
                    text_options(files@),
                    file@,
                    files@.len() as int,
                ) == Some(p@),
                None => !readable || mounted_place(
                    self@.root,
                    walk(self@.root, Seq::empty()),
                    text_options(files@),
                    file@,
                    files@.len() as int,
                ) is None,
            },
    {
        broadcast use lemma_entry_view;

        if !readable {
            return None;
        }
        let places = self.places();
        let ghost list = walk(self@.root, Seq::empty());
        let ghost names = text_options(files@);
        assert(crate::tree::places(places@).len() == places@.len());
        let mut i: usize = 0;
        while i < places.len()
            invariant
                i <= places@.len(),
                readable,
                places@.len() == files@.len(),
                names == text_options(files@),
                list == walk(self@.root, Seq::empty()),
                crate::tree::places(places@) == list,
                forall|j: int|
                    0 <= j < places@.len() ==> has_entry(self@.root, (#[trigger] places@[j])@),
                mounted_place(self@.root, list, names, file@, i as int) is None,
            decreases places@.len() - i,
        {
            broadcast use lemma_entry_view;

            assert(crate::tree::places(places@)[i as int] == places@[i as int]@);
            let same = match &files[i] {
                Some(name) => same_text(name.as_str(), file),
                None => false,
            };
            if same && self.entry(&places[i]).subgroup.is_some() {
                proof {
                    lemma_mounted_place(
                        self@.root,
                        list,
                        names,
                        file@,
                        i + 1,
                        files@.len() as int,
                    );
                }
                let place = places[i].clone();
                assert(place@ =~= places@[i as int]@);
                return Some(place);
            }
            i += 1;
        }
        None
    }
}

} // verus!
