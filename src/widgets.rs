//! The state of the small form widgets of the interface: a text or choice
//! field, a row of buttons, an autocompletion list and a progress spinner.
//! Drawing them is the terminal's business; here is what they hold and how
//! input moves it.
use vstd::prelude::*;
use vstd::string::StrSliceExecFns;

verus! {

broadcast use vstd::string::group_string_axioms;

/// A form field: free text with its cursor, or a choice among labels with
/// the index of the chosen one.
#[derive(Debug, Clone)]
pub enum Field {
    Text(String, usize),
    Choice(Vec<String>, usize),
}

impl Field {
    /// A choice field whose cursor points at one of its labels.
    pub open spec fn wf(&self) -> bool {
        match self {
            Field::Text(_, _) => true,
            Field::Choice(v, c) => v@.len() == 0 || *c < v@.len(),
        }
    }

    /// The text, or the chosen label (empty where there is none).
    pub fn as_str(&self) -> (r: &str)
        requires
            self.wf(),
        ensures
            self is Text ==> r@ == self->Text_0@,
            self is Choice && self->Choice_0@.len() == 0 ==> r@.len() == 0,
            self is Choice && self->Choice_0@.len() > 0 ==> r@ == self->Choice_0@[self->Choice_1 as int]@,
    {
        match self {
            Field::Text(s, _) => s.as_str(),
            Field::Choice(v, cursor) => {
                if v.len() == 0 {
                    proof {
                        reveal_strlit("");
                    }
                    ""
                } else {
                    v[*cursor].as_str()
                }
            },
        }
    }

    pub fn cursor(&self) -> (r: usize)
        ensures
            match self {
                Field::Text(_, c) => r == *c,
                Field::Choice(_, c) => r == *c,
            },
    {
        match self {
            Field::Text(_, c) => *c,
            Field::Choice(_, c) => *c,
        }
    }

    pub fn is_empty(&self) -> (r: bool)
        requires
            self.wf(),
        ensures
            match self {
                Field::Text(s, _) => r == (s@.len() == 0),
                Field::Choice(v, c) => r == (v@.len() == 0 || v@[*c as int]@.len() == 0),
            },
    {
        self.as_str().is_empty()
    }

    /// The text, or the chosen label.
    pub fn into_string(self) -> (r: String)
        requires
            self.wf(),
            self is Choice ==> self->Choice_0@.len() > 0,
        ensures
            match self {
                Field::Text(s, _) => r@ == s@,
                Field::Choice(v, c) => r@ == v@[c as int]@,
            },
    {
        match self {
            Field::Text(s, _) => s,
            Field::Choice(mut v, cursor) => v.remove(cursor),
        }
    }

    /// Empties a text field; a choice stays as it is.
    pub fn clear(&mut self)
        ensures
            match *old(self) {
                Field::Text(_, _) => *final(self) matches Field::Text(s, c) && s@.len() == 0 && c
                    == 0,
                Field::Choice(v, c) => *final(self) == Field::Choice(v, c),
            },
    {
        match self {
            Field::Text(s, c) => {
                *s = String::new();
                *c = 0;
            },
            Field::Choice(_, _) => {},
        }
    }
}

/// A row of labelled buttons, each with the value it resolves to.
#[derive(Debug)]
pub struct ButtonWidget<T: Copy> {
    pub layout: Vec<String>,
    pub buttons: Vec<(String, T)>,
    pub result: Option<T>,
    pub cursor: usize,
    pub focus: bool,
}

impl<T: Copy> ButtonWidget<T> {
    pub fn new(init_val: (String, T)) -> (r: ButtonWidget<T>)
        ensures
            r.layout@.len() == 1 && r.layout@[0]@ == init_val.0@,
            r.buttons@.len() == 1 && r.buttons@[0].0@ == init_val.0@ && r.buttons@[0].1 == init_val.1,
            r.result is None,
            r.cursor == 0,
            !r.focus,
    {
        let label = init_val.0.clone();
        ButtonWidget {
            layout: vec![label],
            buttons: vec![init_val],
            result: None,
            cursor: 0,
            focus: false,
        }
    }

    /// Adds a button; a label already present gets the new value.
    pub fn push(&mut self, value: (String, T))
        ensures
            final(self).layout@.len() == old(self).layout@.len() + 1,
            final(self).layout@.last()@ == value.0@,
            final(self).result == old(self).result,
            final(self).cursor == old(self).cursor,
            exists|k: int|
                0 <= k < final(self).buttons@.len() && #[trigger] final(self).buttons@[k].0@ == value.0@
                    && final(self).buttons@[k].1 == value.1,
            final(self).buttons@.len() >= old(self).buttons@.len(),
    {
        let label = value.0.clone();
        self.layout.push(label);
        let ghost l0 = self.layout@;
        let ghost b0 = self.buttons@;
        let mut k: usize = 0;
        while k < self.buttons.len()
            invariant
                k <= self.buttons@.len(),
                self.layout@ == l0,
                self.buttons@ == b0,
                l0.len() == old(self).layout@.len() + 1,
                l0.last()@ == value.0@,
                self.result == old(self).result,
                self.cursor == old(self).cursor,
                b0.len() == old(self).buttons@.len(),
            decreases self.buttons@.len() - k,
        {
            if self.buttons[k].0 == value.0 {
                let l = self.buttons[k].0.clone();
                self.buttons.set(k, (l, value.1));
                assert(self.buttons@[k as int].0@ == value.0@);
                return;
            }
            k += 1;
        }
        self.buttons.push(value);
        assert(self.buttons@[self.buttons@.len() - 1].0@ == value.0@);
    }

    pub fn is_resolved(&self) -> (r: bool)
        ensures
            r == self.result.is_some(),
    {
        self.result.is_some()
    }

    pub fn result(&self) -> (r: Option<T>)
        ensures
            r == self.result,
    {
        self.result
    }

    pub fn set_focus(&mut self, new_val: bool)
        ensures
            final(self).focus == new_val,
            final(self).cursor == old(self).cursor,
            final(self).result == old(self).result,
            final(self).buttons == old(self).buttons,
            final(self).layout == old(self).layout,
    {
        self.focus = new_val;
    }

    /// Moves the cursor, wrapping around the buttons.
    pub fn set_cursor(&mut self, new_val: usize)
        ensures
            old(self).buttons@.len() == 0 ==> final(self).cursor == old(self).cursor,
            old(self).buttons@.len() > 0 ==> final(self).cursor == new_val % old(
                self,
            ).buttons@.len() as usize,
            final(self).focus == old(self).focus,
            final(self).result == old(self).result,
            final(self).buttons == old(self).buttons,
            final(self).layout == old(self).layout,
    {
        if self.buttons.len() == 0 {
            return;
        }
        self.cursor = new_val % self.buttons.len();
    }
}

/// One autocompletion suggestion.
#[derive(Debug, Clone)]
pub struct AutoCompleteEntry {
    pub entry: String,
    pub description: String,
}

impl AutoCompleteEntry {
    pub fn new(entry: String, description: String) -> (r: AutoCompleteEntry)
        ensures
            r.entry@ == entry@,
            r.description@ == description@,
    {
        AutoCompleteEntry { entry, description }
    }

    pub fn as_str(&self) -> (r: &str)
        ensures
            r@ == self.entry@,
    {
        self.entry.as_str()
    }
}

/// Suggestions with a cursor: 0 is before the first, `k` selects the
/// `k`-th.
#[derive(Debug)]
pub struct AutoComplete {
    entries: Vec<AutoCompleteEntry>,
    cursor: usize,
}

/// The suggestions' texts.
pub open spec fn entry_texts(v: Seq<AutoCompleteEntry>) -> Seq<(Seq<char>, Seq<char>)> {
    v.map_values(|e: AutoCompleteEntry| (e.entry@, e.description@))
}

fn same_entries(a: &Vec<AutoCompleteEntry>, b: &Vec<AutoCompleteEntry>) -> (r: bool)
    ensures
        r == (entry_texts(a@) == entry_texts(b@)),
{
    if a.len() != b.len() {
        proof {
            assert(entry_texts(a@).len() != entry_texts(b@).len());
        }
        return false;
    }
    let mut k: usize = 0;
    while k < a.len()
        invariant
            k <= a@.len(),
            a@.len() == b@.len(),
            forall|j: int| 0 <= j < k ==> #[trigger] entry_texts(a@)[j] == entry_texts(b@)[j],
        decreases a@.len() - k,
    {
        if a[k].entry != b[k].entry || a[k].description != b[k].description {
            assert(entry_texts(a@)[k as int] != entry_texts(b@)[k as int]);
            return false;
        }
        k += 1;
    }
    assert(entry_texts(a@) =~= entry_texts(b@));
    true
}

impl AutoComplete {
    pub closed spec fn entries_view(&self) -> Seq<AutoCompleteEntry> {
        self.entries@
    }

    pub closed spec fn cursor_view(&self) -> usize {
        self.cursor
    }

    pub closed spec fn wf(&self) -> bool {
        self.cursor <= self.entries@.len()
    }

    pub fn new(entries: Vec<AutoCompleteEntry>) -> (r: AutoComplete)
        ensures
            r.wf(),
            r.entries_view() == entries@,
            r.cursor_view() == 0,
    {
        AutoComplete { entries, cursor: 0 }
    }

    /// Replaces the suggestions and puts the cursor before the first; tells
    /// whether they changed (the same texts change nothing).
    pub fn set_suggestions(&mut self, entries: Vec<AutoCompleteEntry>) -> (r: bool)
        requires
            old(self).wf(),
        ensures
            final(self).wf(),
            r == (entry_texts(entries@) != entry_texts(old(self).entries_view())),
            r ==> final(self).entries_view() == entries@ && final(self).cursor_view() == 0,
            !r ==> final(self).entries_view() == old(self).entries_view() && final(self).cursor_view()
                == old(self).cursor_view(),
    {
        if same_entries(&entries, &self.entries) {
            return false;
        }
        self.entries = entries;
        self.cursor = 0;
        true
    }

    pub fn inc_cursor(&mut self)
        requires
            old(self).wf(),
        ensures
            final(self).wf(),
            final(self).entries_view() == old(self).entries_view(),
            final(self).cursor_view() == if old(self).cursor_view() < old(self).entries_view().len() {
                (old(self).cursor_view() + 1) as usize
            } else {
                old(self).cursor_view()
            },
    {
        if self.cursor < self.entries.len() {
            self.cursor += 1;
        }
    }

    pub fn dec_cursor(&mut self)
        requires
            old(self).wf(),
        ensures
            final(self).wf(),
            final(self).entries_view() == old(self).entries_view(),
            final(self).cursor_view() == if old(self).cursor_view() > 0 {
                (old(self).cursor_view() - 1) as usize
            } else {
                0
            },
    {
        if self.cursor > 0 {
            self.cursor -= 1;
        }
    }

    pub fn cursor(&self) -> (r: usize)
        ensures
            r == self.cursor_view(),
    {
        self.cursor
    }

    /// Moves the cursor to `val`, or to the last suggestion where `val`
    /// lies beyond it.
    pub fn set_cursor(&mut self, val: usize)
        ensures
            final(self).wf(),
            final(self).cursor_view() == if val <= old(self).entries_view().len() {
                val
            } else {
                old(self).entries_view().len() as usize
            },
            final(self).entries_view() == old(self).entries_view(),
    {
        self.cursor = if val <= self.entries.len() {
            val
        } else {
            self.entries.len()
        };
    }

    /// Takes the selected suggestion and empties the list; `None` where
    /// nothing is selected.
    pub fn get_suggestion(&mut self) -> (r: Option<String>)
        requires
            old(self).wf(),
        ensures
            final(self).wf(),
            old(self).entries_view().len() == 0 || old(self).cursor_view() == 0 ==> r is None
                && final(self).entries_view() == old(self).entries_view() && final(self).cursor_view()
                == old(self).cursor_view(),
            old(self).entries_view().len() > 0 && old(self).cursor_view() > 0 ==> (r matches Some(s)
                && s@ == old(self).entries_view()[old(self).cursor_view() - 1].entry@)
                && final(self).entries_view().len() == 0 && final(self).cursor_view() == 0,
    {
        if self.entries.len() == 0 || self.cursor == 0 {
            return None;
        }
        let ret = self.entries.remove(self.cursor - 1);
        self.entries = Vec::new();
        self.cursor = 0;
        Some(ret.entry)
    }

    pub fn suggestions(&self) -> (r: &Vec<AutoCompleteEntry>)
        ensures
            r@ == self.entries_view(),
    {
        &self.entries
    }
}

/// How many built-in spinner animations there are.
pub const SPINNER_KINDS: usize = 30;

/// The width of the frames of built-in animation `kind`.
pub open spec fn kind_width(kind: usize) -> usize {
    if kind == 18 || kind == 19 || kind == 28 {
        2
    } else {
        1
    }
}

fn spinner_width(kind: usize) -> (r: usize)
    ensures
        r == kind_width(kind),
{
    if kind == 18 || kind == 19 || kind == 28 {
        2
    } else {
        1
    }
}

/// An animation shown while work is in progress: one of the built-in kinds
/// or custom frames.
#[derive(Debug)]
pub struct ProgressSpinner {
    pub stage: usize,
    pub kind: Result<usize, Vec<String>>,
    pub width: usize,
    pub active: bool,
}

/// The widest of `frames`, in characters.
pub open spec fn max_width(frames: Seq<String>) -> nat
    decreases frames.len(),
{
    if frames.len() == 0 {
        0
    } else {
        let rest = max_width(frames.drop_last());
        if frames.last()@.len() > rest {
            frames.last()@.len()
        } else {
            rest
        }
    }
}

impl ProgressSpinner {
    pub fn new(kind: usize) -> (r: ProgressSpinner)
        ensures
            r.kind == Ok::<usize, Vec<String>>(kind % SPINNER_KINDS),
            r.width == kind_width(kind % SPINNER_KINDS),
            r.stage == 0,
            !r.active,
    {
        let kind = kind % SPINNER_KINDS;
        ProgressSpinner { stage: 0, kind: Ok(kind), width: spinner_width(kind), active: false }
    }

    pub fn is_active(&self) -> (r: bool)
        ensures
            r == self.active,
    {
        self.active
    }

    pub fn set_kind(&mut self, kind: usize)
        ensures
            final(self).kind == Ok::<usize, Vec<String>>(kind % SPINNER_KINDS),
            final(self).width == kind_width(kind % SPINNER_KINDS),
            final(self).stage == 0,
            final(self).active == old(self).active,
    {
        self.stage = 0;
        self.width = spinner_width(kind % SPINNER_KINDS);
        self.kind = Ok(kind % SPINNER_KINDS);
    }

    /// Uses `custom` as the frames; frames that are all empty stop it.
    pub fn set_custom_kind(&mut self, custom: Vec<String>)
        ensures
            final(self).kind matches Err(v) && v@ == custom@,
            final(self).width as nat == max_width(custom@) || (max_width(custom@) > usize::MAX
                && final(self).width == usize::MAX),
            final(self).stage == 0,
            final(self).width == 0 ==> !final(self).active,
            final(self).width > 0 ==> final(self).active == old(self).active,
    {
        self.stage = 0;
        let mut w: usize = 0;
        let mut k: usize = 0;
        while k < custom.len()
            invariant
                k <= custom@.len(),
                w as nat == max_width(custom@.subrange(0, k as int)),
            decreases custom@.len() - k,
        {
            assert(custom@.subrange(0, k + 1).drop_last() =~= custom@.subrange(0, k as int));
            let l = custom[k].as_str().unicode_len();
            if l > w {
                w = l;
            }
            k += 1;
        }
        assert(custom@.subrange(0, custom@.len() as int) =~= custom@);
        self.width = w;
        if self.width == 0 {
            self.stop();
        }
        self.kind = Err(custom);
    }

    /// Starts the animation, unless its frames are empty.
    pub fn start(&mut self)
        ensures
            final(self).active == (old(self).width > 0 || old(self).active),
            final(self).width == old(self).width,
            final(self).kind == old(self).kind,
            final(self).stage == old(self).stage,
    {
        if self.width == 0 {
            return;
        }
        self.active = true;
    }

    pub fn stop(&mut self)
        ensures
            !final(self).active,
            final(self).stage == 0,
            final(self).width == old(self).width,
            final(self).kind == old(self).kind,
    {
        self.active = false;
        self.stage = 0;
    }
}

} // verus!
