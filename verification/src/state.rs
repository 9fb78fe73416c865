//! The application state: configuration, the working set of records, the
//! interactive selection, and the edit buffer. The reconciliation itself
//! lives in `sync`.

use vstd::prelude::*;
use crate::records::{EntryNode, RecordV, due_key};
use crate::values::{NodeValue, fields_view, spec_insert, lookup};
use crate::names::NodeName;
use crate::passes::recs_view;
use vstd::string::StringExecFns;

verus! {

/// How callers authenticate: the selector is two-valued, and its lowercase
/// token names the auth header.
#[derive(Debug, PartialEq, Eq, Structural, Clone, Copy)]
pub enum AuthMethod {
    Token,
    Password,
}

/// The lowercase header name an auth method selects: `token` or `password`.
pub open spec fn auth_header_name(m: AuthMethod) -> Seq<u8> {
    match m {
        AuthMethod::Token => seq![116u8, 111u8, 107u8, 101u8, 110u8],
        AuthMethod::Password => seq![112u8, 97u8, 115u8, 115u8, 119u8, 111u8, 114u8, 100u8],
    }
}

impl AuthMethod {
    /// The name of the auth header this method selects.
    pub fn header_name(&self) -> (r: Vec<u8>)
        ensures
            r@ == auth_header_name(*self),
    {
        let mut r: Vec<u8> = Vec::new();
        match self {
            AuthMethod::Token => {
                r.push(116);
                r.push(111);
                r.push(107);
                r.push(101);
                r.push(110);
            },
            AuthMethod::Password => {
                r.push(112);
                r.push(97);
                r.push(115);
                r.push(115);
                r.push(119);
                r.push(111);
                r.push(114);
                r.push(100);
            },
        }
        assert(r@ =~= auth_header_name(*self));
        r
    }
}

impl From<usize> for AuthMethod {
    /// 0 selects Token, 1 Password, anything else falls back to Token.
    fn from(s: usize) -> (r: AuthMethod) {
        match s {
            0 => AuthMethod::Token,
            1 => AuthMethod::Password,
            _ => AuthMethod::Token,
        }
    }
}

impl vstd::std_specs::convert::FromSpecImpl<usize> for AuthMethod {
    open spec fn obeys_from_spec() -> bool {
        true
    }

    open spec fn from_spec(s: usize) -> AuthMethod {
        if s == 1 {
            AuthMethod::Password
        } else {
            AuthMethod::Token
        }
    }
}

/// The configuration handed in by the surroundings: where the remote lives
/// and how to authenticate against it.
#[derive(Debug)]
pub struct AppConfig {
    pub server_address: String,
    pub username: String,
    pub secret: String,
    pub auth_method: AuthMethod,
}

impl Clone for AppConfig {
    fn clone(&self) -> (r: Self)
        ensures
            r == *self,
    {
        AppConfig {
            server_address: self.server_address.clone(),
            username: self.username.clone(),
            secret: self.secret.clone(),
            auth_method: self.auth_method,
        }
    }
}

impl Default for AppConfig {
    /// The placeholder configuration a fresh installation starts with.
    fn default() -> (r: Self)
        ensures
            r.server_address@ == "<THE ADDRESS OF THE WEBSERVER>"@,
            r.username@ == "<YOUR USERNAME>"@,
            r.secret@ == "<YOUR TOKEN / SECRET>"@,
            r.auth_method == AuthMethod::Token,
    {
        AppConfig {
            server_address: crate::state::string_of("<THE ADDRESS OF THE WEBSERVER>"),
            username: crate::state::string_of("<YOUR USERNAME>"),
            secret: crate::state::string_of("<YOUR TOKEN / SECRET>"),
            auth_method: AuthMethod::Token,
        }
    }
}

/// Builds an owned string from a literal.
pub fn string_of(s: &str) -> (r: String)
    ensures
        r@ == s@,
{
    String::from_str(s)
}

impl AppConfig {
    pub fn new(server_address: String, username: String, secret: String, auth_method: AuthMethod)
        -> (r: Self)
        ensures
            r.server_address == server_address,
            r.username == username,
            r.secret == secret,
            r.auth_method == auth_method,
    {
        AppConfig { server_address, username, secret, auth_method }
    }

    /// The configuration with everything blank.
    pub fn empty() -> (r: Self)
        ensures
            r.server_address@ == Seq::<char>::empty(),
            r.username@ == Seq::<char>::empty(),
            r.secret@ == Seq::<char>::empty(),
            r.auth_method == AuthMethod::Token,
    {
        AppConfig {
            server_address: String::new(),
            username: String::new(),
            secret: String::new(),
            auth_method: AuthMethod::Token,
        }
    }

    /// Whether this is still the placeholder configuration.
    pub fn is_default(&self) -> (r: bool)
        ensures
            r == (self.server_address@ == "<THE ADDRESS OF THE WEBSERVER>"@ && self.username@
                == "<YOUR USERNAME>"@ && self.secret@ == "<YOUR TOKEN / SECRET>"@
                && self.auth_method == AuthMethod::Token),
    {
        let d = AppConfig::default();
        self.server_address.eq(&d.server_address) && self.username.eq(&d.username)
            && self.secret.eq(&d.secret) && self.auth_method == d.auth_method
    }

    /// Whether everything is blank.
    pub fn is_empty(&self) -> (r: bool)
        ensures
            r == (self.server_address@ == Seq::<char>::empty() && self.username@
                == Seq::<char>::empty() && self.secret@ == Seq::<char>::empty()
                && self.auth_method == AuthMethod::Token),
    {
        let e = AppConfig::empty();
        self.server_address.eq(&e.server_address) && self.username.eq(&e.username)
            && self.secret.eq(&e.secret) && self.auth_method == e.auth_method
    }
}

/// Which column the acting focus is on.
#[derive(Debug, PartialEq, Eq, Structural, Clone, Copy)]
pub enum AppFocus {
    Elements,
    Attributes,
    Edit,
}

impl AppFocus {
    /// Whether the focus is on the record list.
    pub fn elements(&self) -> (r: bool)
        ensures
            r == (*self == AppFocus::Elements),
    {
        *self == AppFocus::Elements
    }

    /// Whether the focus is on the attribute table.
    pub fn attributes(&self) -> (r: bool)
        ensures
            r == (*self == AppFocus::Attributes),
    {
        *self == AppFocus::Attributes
    }

    /// Whether the focus is on the editor line.
    pub fn edit(&self) -> (r: bool)
        ensures
            r == (*self == AppFocus::Edit),
    {
        *self == AppFocus::Edit
    }
}

/// One of the commands the interactive surface offers.
#[derive(Debug, PartialEq, Eq, Structural, Clone, Copy)]
pub enum AppCommand {
    Clear,
    Edit,
    Fill,
    Help,
    Quit,
    Refresh,
    Idle,
}

impl From<usize> for AppCommand {
    /// The commands in menu order; anything past them is idle.
    fn from(s: usize) -> (r: AppCommand) {
        match s {
            0 => AppCommand::Refresh,
            1 => AppCommand::Edit,
            2 => AppCommand::Fill,
            3 => AppCommand::Clear,
            4 => AppCommand::Help,
            5 => AppCommand::Quit,
            _ => AppCommand::Idle,
        }
    }
}

impl vstd::std_specs::convert::FromSpecImpl<usize> for AppCommand {
    open spec fn obeys_from_spec() -> bool {
        true
    }

    open spec fn from_spec(s: usize) -> AppCommand {
        if s == 0 {
            AppCommand::Refresh
        } else if s == 1 {
            AppCommand::Edit
        } else if s == 2 {
            AppCommand::Fill
        } else if s == 3 {
            AppCommand::Clear
        } else if s == 4 {
            AppCommand::Help
        } else if s == 5 {
            AppCommand::Quit
        } else {
            AppCommand::Idle
        }
    }
}

/// The label a command shows in the footer.
pub open spec fn command_label(c: AppCommand) -> Seq<char> {
    match c {
        AppCommand::Clear => "[c]lear"@,
        AppCommand::Fill => "[f]ill with new"@,
        AppCommand::Edit => "[e]dit"@,
        AppCommand::Refresh => "[r]efresh"@,
        AppCommand::Help => "[h]elp"@,
        AppCommand::Quit => "[q]uit"@,
        AppCommand::Idle => "[n]one"@,
    }
}

impl AppCommand {
    /// The label this command shows in the footer.
    pub fn label(&self) -> (r: String)
        ensures
            r@ == command_label(*self),
    {
        match self {
            AppCommand::Clear => string_of("[c]lear"),
            AppCommand::Fill => string_of("[f]ill with new"),
            AppCommand::Edit => string_of("[e]dit"),
            AppCommand::Refresh => string_of("[r]efresh"),
            AppCommand::Help => string_of("[h]elp"),
            AppCommand::Quit => string_of("[q]uit"),
            AppCommand::Idle => string_of("[n]one"),
        }
    }

    /// Every command the footer offers, in menu order.
    pub fn get_command_list() -> (r: Vec<AppCommand>)
        ensures
            r@ == seq![
                AppCommand::Refresh,
                AppCommand::Edit,
                AppCommand::Fill,
                AppCommand::Clear,
                AppCommand::Help,
                AppCommand::Quit,
            ],
    {
        let mut result: Vec<AppCommand> = Vec::new();
        let mut i: usize = 0;
        while i < 6
            invariant
                i <= 6,
                r_prefix(result@, i as int),
            decreases 6 - i,
        {
            let e = AppCommand::from(i);
            result.push(e);
            i = i + 1;
            proof {
                assert(r_prefix(result@, i as int));
            }
        }
        proof {
            assert(result@ =~= seq![
                AppCommand::Refresh,
                AppCommand::Edit,
                AppCommand::Fill,
                AppCommand::Clear,
                AppCommand::Help,
                AppCommand::Quit,
            ]);
        }
        result
    }

    /// The footer labels of every command, in menu order.
    pub fn get_command_list_string() -> (r: Vec<String>)
        ensures
            r@.len() == 6,
            forall|i: int|
                0 <= i < 6 ==> r@[i]@ == command_label(
                    seq![
                        AppCommand::Refresh,
                        AppCommand::Edit,
                        AppCommand::Fill,
                        AppCommand::Clear,
                        AppCommand::Help,
                        AppCommand::Quit,
                    ][i],
                ),
    {
        let cmds = AppCommand::get_command_list();
        let mut out: Vec<String> = Vec::new();
        let mut i: usize = 0;
        while i < cmds.len()
            invariant
                i <= cmds@.len(),
                cmds@ == seq![
                    AppCommand::Refresh,
                    AppCommand::Edit,
                    AppCommand::Fill,
                    AppCommand::Clear,
                    AppCommand::Help,
                    AppCommand::Quit,
                ],
                out@.len() == i,
                forall|j: int| 0 <= j < i ==> out@[j]@ == command_label(cmds@[j]),
            decreases cmds@.len() - i,
        {
            out.push(cmds[i].label());
            i = i + 1;
        }
        out
    }

    /// The command a plain key press selects.
    pub fn from_char(val: char) -> (r: AppCommand)
        ensures
            r == (if val == 'c' {
                AppCommand::Clear
            } else if val == 'e' {
                AppCommand::Edit
            } else if val == 'f' {
                AppCommand::Fill
            } else if val == 'h' {
                AppCommand::Help
            } else if val == 'r' {
                AppCommand::Refresh
            } else if val == 'q' {
                AppCommand::Quit
            } else {
                AppCommand::Idle
            }),
    {
        match val {
            'c' => AppCommand::Clear,
            'e' => AppCommand::Edit,
            'f' => AppCommand::Fill,
            'h' => AppCommand::Help,
            'r' => AppCommand::Refresh,
            'q' => AppCommand::Quit,
            _ => AppCommand::Idle,
        }
    }
}

/// The first `i` commands in menu order.
pub open spec fn r_prefix(s: Seq<AppCommand>, i: int) -> bool {
    s =~= seq![
        AppCommand::Refresh,
        AppCommand::Edit,
        AppCommand::Fill,
        AppCommand::Clear,
        AppCommand::Help,
        AppCommand::Quit,
    ].take(if i < 6 {
        i
    } else {
        6
    })
}

/// The state of the application: configuration, the working set, whether it
/// is in step with the remote, the interactive focus and selections, and
/// the edit buffer.
#[derive(Debug)]
pub struct AppState {
    pub config: AppConfig,
    pub elements: Vec<EntryNode>,
    pub synced: bool,
    pub focused_on: AppFocus,
    pub list_selected: Option<usize>,
    pub details_selected: Option<usize>,
    pub prompt: Option<String>,
    pub message: Option<String>,
    pub modification_buffer: Option<Vec<u8>>,
}

/// The ids the records carry, in order; with `ignore_removed`, records
/// flagged for deletion are passed over.
pub open spec fn ids_of(ws: Seq<RecordV>, ignore_removed: bool) -> Seq<u16>
    decreases ws.len(),
{
    if ws.len() == 0 {
        Seq::empty()
    } else {
        let rest = ids_of(ws.drop_first(), ignore_removed);
        match ws[0].id {
            Some(i) => if !ignore_removed || !ws[0].removed {
                seq![i] + rest
            } else {
                rest
            },
            None => rest,
        }
    }
}

/// Puts `r` into the run `s`, already sorted by due key, after every record
/// with the same or an earlier key.
pub open spec fn insert_due(r: RecordV, s: Seq<RecordV>) -> Seq<RecordV>
    decreases s.len(),
{
    if s.len() == 0 {
        seq![r]
    } else if due_key(r) < due_key(s[0]) {
        seq![r] + s
    } else {
        seq![s[0]] + insert_due(r, s.drop_first())
    }
}

/// The working set sorted by due key, stably: insertion sort, left to right.
pub open spec fn sort_due(s: Seq<RecordV>) -> Seq<RecordV>
    decreases s.len(),
{
    if s.len() == 0 {
        Seq::empty()
    } else {
        insert_due(s.last(), sort_due(s.drop_last()))
    }
}

/// Due keys never decrease along the run.
pub open spec fn sorted_by_due(s: Seq<RecordV>) -> bool {
    forall|i: int, j: int| 0 <= i < j < s.len() ==> due_key(s[i]) <= due_key(s[j])
}

/// Insertion keeps a sorted run sorted.
pub proof fn lemma_insert_due_sorted(r: RecordV, s: Seq<RecordV>)
    requires
        sorted_by_due(s),
    ensures
        sorted_by_due(insert_due(r, s)),
        insert_due(r, s).len() == s.len() + 1,
        insert_due(r, s).to_multiset() == s.push(r).to_multiset(),
    decreases s.len(),
{
    broadcast use vstd::seq_lib::group_to_multiset_ensures;

    if s.len() == 0 {
        assert(seq![r] =~= Seq::<RecordV>::empty().push(r));
    } else if due_key(r) < due_key(s[0]) {
        let out = seq![r] + s;
        assert forall|i: int, j: int| 0 <= i < j < out.len() implies due_key(out[i]) <= due_key(
            out[j],
        ) by {
            if i > 0 {
                assert(out[i] == s[i - 1] && out[j] == s[j - 1]);
            } else {
                assert(out[j] == s[j - 1]);
                if j > 1 {
                    assert(due_key(s[0]) <= due_key(s[j - 1]));
                }
            }
        }
        assert(out =~= s.insert(0, r));
        vstd::seq_lib::lemma_multiset_commutative(seq![r], s);
        assert(s.push(r) =~= s + seq![r]);
        vstd::seq_lib::lemma_multiset_commutative(s, seq![r]);
    } else {
        assert(sorted_by_due(s.drop_first())) by {
            assert(forall|i: int, j: int|
                0 <= i < j < s.drop_first().len() ==> due_key(#[trigger] s.drop_first()[i])
                    <= due_key(#[trigger] s.drop_first()[j]));
        }
        lemma_insert_due_sorted(r, s.drop_first());
        let inner = insert_due(r, s.drop_first());
        let out = seq![s[0]] + inner;
        assert forall|i: int, j: int| 0 <= i < j < out.len() implies due_key(out[i]) <= due_key(
            out[j],
        ) by {
            if i > 0 {
                assert(out[i] == inner[i - 1] && out[j] == inner[j - 1]);
            } else {
                assert(out[j] == inner[j - 1]);
                // every element of the inner run is r or one of s's tail,
                // and both outweigh s[0]
                assert(inner.to_multiset().contains(inner[j - 1]));
                assert(s.drop_first().push(r).to_multiset().contains(inner[j - 1]));
                assert(s.drop_first().push(r).contains(inner[j - 1]));
                let w = choose|w: int|
                    0 <= w < s.drop_first().push(r).len() && s.drop_first().push(r)[w] == inner[j
                        - 1];
                if w < s.drop_first().len() {
                    assert(s.drop_first()[w] == s[w + 1]);
                    assert(due_key(s[0]) <= due_key(s[w + 1]));
                }
            }
        }
        assert(out.to_multiset() =~= s.push(r).to_multiset()) by {
            assert(out =~= seq![s[0]] + inner);
            vstd::seq_lib::lemma_multiset_commutative(seq![s[0]], inner);
            assert(inner.to_multiset() == s.drop_first().push(r).to_multiset());
            assert(s.drop_first().push(r) =~= s.drop_first() + seq![r]);
            vstd::seq_lib::lemma_multiset_commutative(s.drop_first(), seq![r]);
            assert(s =~= seq![s[0]] + s.drop_first());
            vstd::seq_lib::lemma_multiset_commutative(seq![s[0]], s.drop_first());
            assert(s.push(r) =~= s + seq![r]);
            vstd::seq_lib::lemma_multiset_commutative(s, seq![r]);
        }
    }
}

/// The sort gives a sorted permutation of its input.
pub proof fn lemma_sort_due_sorted(s: Seq<RecordV>)
    ensures
        sorted_by_due(sort_due(s)),
        sort_due(s).len() == s.len(),
        sort_due(s).to_multiset() == s.to_multiset(),
    decreases s.len(),
{
    broadcast use vstd::seq_lib::group_to_multiset_ensures;

    if s.len() == 0 {
        assert(sort_due(s) =~= Seq::<RecordV>::empty());
    } else {
        lemma_sort_due_sorted(s.drop_last());
        lemma_insert_due_sorted(s.last(), sort_due(s.drop_last()));
        assert(sort_due(s.drop_last()).push(s.last()).to_multiset() == s.drop_last().push(
            s.last(),
        ).to_multiset()) by {
            assert(sort_due(s.drop_last()).push(s.last()) =~= sort_due(s.drop_last()) + seq![
                s.last(),
            ]);
            assert(s.drop_last().push(s.last()) =~= s.drop_last() + seq![s.last()]);
            vstd::seq_lib::lemma_multiset_commutative(sort_due(s.drop_last()), seq![s.last()]);
            vstd::seq_lib::lemma_multiset_commutative(s.drop_last(), seq![s.last()]);
        }
        assert(s.drop_last().push(s.last()) =~= s);
    }
}

/// Sorted runs agree under insertion position: putting `r` at `pos`, where
/// everything before carries a key at most `r`'s and the element at `pos`
/// (if any) a strictly larger one, is what `insert_due` does.
proof fn lemma_insert_due_at(r: RecordV, s: Seq<RecordV>, pos: int)
    requires
        0 <= pos <= s.len(),
        forall|k: int| 0 <= k < pos ==> due_key(#[trigger] s[k]) <= due_key(r),
        pos < s.len() ==> due_key(r) < due_key(s[pos]),
    ensures
        insert_due(r, s) == s.insert(pos, r),
    decreases pos,
{
    if s.len() == 0 {
        assert(insert_due(r, s) =~= s.insert(0, r));
    } else if pos == 0 {
        assert(insert_due(r, s) =~= s.insert(0, r));
    } else {
        assert(due_key(s[0]) <= due_key(r));
        assert forall|k: int| 0 <= k < pos - 1 implies due_key(#[trigger] s.drop_first()[k])
            <= due_key(r) by {
            assert(s.drop_first()[k] == s[k + 1]);
        }
        if pos - 1 < s.drop_first().len() {
            assert(s.drop_first()[pos - 1] == s[pos]);
        }
        lemma_insert_due_at(r, s.drop_first(), pos - 1);
        assert(seq![s[0]] + s.drop_first().insert(pos - 1, r) =~= s.insert(pos, r));
    }
}

impl AppState {
    /// A fresh state around a configuration: an empty working set, not yet
    /// in step with the remote, focused on the record list.
    pub fn new(config: AppConfig) -> (r: Self)
        ensures
            r.config == config,
            r.elements@.len() == 0,
            !r.synced,
            r.focused_on == AppFocus::Elements,
            r.list_selected is None,
            r.details_selected is None,
            r.prompt is None,
            r.message is None,
            r.modification_buffer is None,
    {
        AppState {
            config,
            elements: Vec::new(),
            synced: false,
            focused_on: AppFocus::Elements,
            list_selected: None,
            details_selected: None,
            prompt: None,
            message: None,
            modification_buffer: None,
        }
    }

    /// Whether an edit is in progress: the edit buffer exists.
    pub fn is_editing(&self) -> (r: bool)
        ensures
            r == (self.modification_buffer is Some),
    {
        self.modification_buffer.is_some()
    }

    /// A copy of the working set.
    pub fn get_elements(&self) -> (r: Vec<EntryNode>)
        ensures
            recs_view(r@) == recs_view(self.elements@),
    {
        let mut out: Vec<EntryNode> = Vec::new();
        let mut i: usize = 0;
        while i < self.elements.len()
            invariant
                i <= self.elements@.len(),
                out@.len() == i,
                forall|j: int| 0 <= j < i ==> (#[trigger] out@[j])@ == self.elements@[j]@,
            decreases self.elements@.len() - i,
        {
            out.push(self.elements[i].clone());
            i = i + 1;
        }
        proof {
            assert(recs_view(out@) =~= recs_view(self.elements@));
        }
        out
    }

    /// The currently selected record, if the selection is in range.
    pub fn get_selected_element(&self) -> (r: Option<&EntryNode>)
        ensures
            match r {
                Some(e) => self.list_selected matches Some(ix) && ix < self.elements@.len() && e@
                    == self.elements@[ix as int]@,
                None => self.list_selected matches Some(ix) ==> ix >= self.elements@.len(),
            },
    {
        match self.list_selected {
            Some(ix) => {
                if ix < self.elements.len() {
                    Some(&self.elements[ix])
                } else {
                    None
                }
            },
            None => None,
        }
    }

    /// A copy of the edit buffer, if an edit is in progress.
    pub fn get_edit(&self) -> (r: Option<Vec<u8>>)
        ensures
            match r {
                Some(b) => self.modification_buffer matches Some(m) && b@ == m@,
                None => self.modification_buffer is None,
            },
    {
        match &self.modification_buffer {
            Some(b) => Some(crate::values::copy_bytes(b)),
            None => None,
        }
    }

    /// Replaces the edit buffer; says whether one now exists.
    pub fn set_edit(&mut self, value: Option<Vec<u8>>) -> (r: bool)
        ensures
            *final(self) == (AppState { modification_buffer: value, ..*old(self) }),
            r == (value is Some),
    {
        let r = value.is_some();
        self.modification_buffer = value;
        r
    }

    /// Appends one byte to the edit buffer, if an edit is in progress.
    pub fn push_edit(&mut self, value: u8)
        ensures
            match old(self).modification_buffer {
                Some(b) => final(self).modification_buffer matches Some(b2) && b2@ == b@.push(value)
                    && *final(self) == (AppState {
                    modification_buffer: final(self).modification_buffer,
                    ..*old(self)
                }),
                None => *final(self) == *old(self),
            },
    {
        match &mut self.modification_buffer {
            Some(b) => {
                b.push(value);
            },
            None => {},
        }
    }

    /// Drops the last byte of the edit buffer, if an edit is in progress.
    pub fn pop_edit(&mut self)
        ensures
            match old(self).modification_buffer {
                Some(b) => final(self).modification_buffer matches Some(b2) && b2@ == (if b@.len()
                    > 0 {
                    b@.drop_last()
                } else {
                    b@
                }) && *final(self) == (AppState {
                    modification_buffer: final(self).modification_buffer,
                    ..*old(self)
                }),
                None => *final(self) == *old(self),
            },
    {
        match &mut self.modification_buffer {
            Some(b) => {
                if b.len() > 0 {
                    b.pop();
                } else {
                }
            },
            None => {},
        }
    }

    /// Leaves editing mode, dropping the buffer and touching nothing else.
    pub fn abort_editing(&mut self)
        ensures
            *final(self) == (AppState { modification_buffer: None, ..*old(self) }),
    {
        self.modification_buffer = None;
    }

    /// Finds the first record carrying `id`.
    pub fn get_element_index_by_id(&self, id: u16) -> (r: Option<usize>)
        ensures
            match r {
                Some(ix) => ix < self.elements@.len() && self.elements@[ix as int]@.id == Some(id),
                None => crate::passes::find_rec(recs_view(self.elements@), id) is None,
            },
    {
        crate::passes::find_rec_idx(&self.elements, id)
    }

    /// The ids present in the working set; with `ignore_removed`, records
    /// flagged for deletion are passed over.
    pub fn get_ids(&self, ignore_removed: bool) -> (r: Vec<u16>)
        ensures
            r@ == ids_of(recs_view(self.elements@), ignore_removed),
    {
        let ghost wsv = recs_view(self.elements@);
        let mut out: Vec<u16> = Vec::new();
        let mut i: usize = 0;
        assert(wsv.skip(0) =~= wsv);
        while i < self.elements.len()
            invariant
                i <= self.elements@.len(),
                wsv == recs_view(self.elements@),
                ids_of(wsv, ignore_removed) == out@ + ids_of(wsv.skip(i as int), ignore_removed),
            decreases self.elements@.len() - i,
        {
            let ghost out0 = out@;
            proof {
                let tail = wsv.skip(i as int);
                assert(tail[0] == wsv[i as int]);
                assert(tail.drop_first() =~= wsv.skip(i as int + 1));
            }
            let e = &self.elements[i];
            let take = !ignore_removed || !e.is_removed();
            if take {
                match e.id() {
                    Some(id) => {
                        out.push(id);
                        proof {
                            assert(out@ =~= out0 + seq![id]);
                            assert(ids_of(wsv, ignore_removed) =~= out@ + ids_of(
                                wsv.skip(i as int + 1),
                                ignore_removed,
                            ));
                        }
                    },
                    None => {},
                }
            }
            i = i + 1;
        }
        proof {
            assert(ids_of(wsv.skip(self.elements@.len() as int), ignore_removed)
                =~= Seq::<u16>::empty());
            assert(out@ + Seq::<u16>::empty() =~= out@);
        }
        out
    }

    /// Appends a record to the working set, if one is given.
    pub fn push(&mut self, element: Option<EntryNode>)
        ensures
            match element {
                Some(e) => *final(self) == (AppState {
                    elements: final(self).elements,
                    ..*old(self)
                }) && final(self).elements@ == old(self).elements@.push(e),
                None => *final(self) == *old(self),
            },
    {
        match element {
            Some(e) => self.elements.push(e),
            None => {},
        }
    }

    /// Notes that the working set has diverged from the remote.
    pub fn unsynced(&mut self)
        ensures
            *final(self) == (AppState { synced: false, ..*old(self) }),
    {
        self.synced = false;
    }

    /// Whether the working set is in step with the remote.
    pub fn is_synced(&self) -> (r: bool)
        ensures
            r == self.synced,
    {
        self.synced
    }

    /// What the status line says of the local state.
    pub fn modified_string(&self) -> (r: String)
        ensures
            r@ == (if self.modification_buffer is Some {
                "editing"@
            } else if self.synced {
                "synced"@
            } else {
                "edited"@
            }),
    {
        if self.is_editing() {
            string_of("editing")
        } else if self.synced {
            string_of("synced")
        } else {
            string_of("edited")
        }
    }

    /// Flags the record carrying `id` for deletion; says whether one was
    /// found.
    pub fn remove(&mut self, id: u16) -> (r: bool)
        ensures
            final(self).config == old(self).config && final(self).synced == old(self).synced
                && final(self).elements@.len() == old(self).elements@.len(),
            r ==> exists|k: int|
                0 <= k < old(self).elements@.len() && (#[trigger] old(self).elements@[k])@.id
                    == Some(id) && final(self).elements@[k]@ == (RecordV {
                    removed: true,
                    ..old(self).elements@[k]@
                }) && (forall|j: int|
                    0 <= j < old(self).elements@.len() && j != k
                        ==> (#[trigger] final(self).elements@[j])@ == old(self).elements@[j]@),
            !r ==> *final(self) == *old(self) && (crate::passes::find_rec(
                recs_view(old(self).elements@),
                id,
            ) is None),
    {
        match crate::passes::find_rec_idx(&self.elements, id) {
            Some(ix) => {
                let mut e = self.elements.remove(ix);
                e.set_removed();
                self.elements.insert(ix, e);
                proof {
                    assert(final(self).elements@.len() == old(self).elements@.len());
                    assert(final(self).elements@[ix as int]@ == (RecordV {
                        removed: true,
                        ..old(self).elements@[ix as int]@
                    }));
                }
                true
            },
            None => false,
        }
    }

    /// Flags the selected record for deletion; says whether one was
    /// selected.
    pub fn remove_element(&mut self) -> (r: bool)
        ensures
            final(self).config == old(self).config && final(self).synced == old(self).synced
                && final(self).elements@.len() == old(self).elements@.len(),
            r == (old(self).list_selected matches Some(ix) && ix < old(self).elements@.len()),
            r ==> (old(self).list_selected matches Some(ix) && final(self).elements@[ix as int]@
                == (RecordV { removed: true, ..old(self).elements@[ix as int]@ }) && (forall|j: int|
                0 <= j < old(self).elements@.len() && j != ix
                    ==> (#[trigger] final(self).elements@[j])@ == old(self).elements@[j]@)),
            !r ==> *final(self) == *old(self),
    {
        match self.list_selected {
            Some(ix) => {
                if ix < self.elements.len() {
                    let mut e = self.elements.remove(ix);
                    e.set_removed();
                    self.elements.insert(ix, e);
                    true
                } else {
                    false
                }
            },
            None => false,
        }
    }

    /// Sorts the working set by due date ascending, an absent due date
    /// counting as the earliest possible value. The sort is stable.
    pub fn sort_by_due(&mut self)
        ensures
            *final(self) == (AppState { elements: final(self).elements, ..*old(self) }),
            recs_view(final(self).elements@) == sort_due(recs_view(old(self).elements@)),
            sorted_by_due(recs_view(final(self).elements@)),
    {
        let ghost orig = recs_view(self.elements@);
        let mut sorted: Vec<EntryNode> = Vec::new();
        let mut i: usize = 0;
        proof {
            assert(orig.take(0) =~= Seq::<RecordV>::empty());
            assert(recs_view(sorted@) =~= Seq::<RecordV>::empty());
            assert(sort_due(orig.take(0)) =~= Seq::<RecordV>::empty());
        }
        while i < self.elements.len()
            invariant
                i <= self.elements@.len(),
                orig == recs_view(self.elements@),
                recs_view(sorted@) == sort_due(orig.take(i as int)),
                sorted_by_due(recs_view(sorted@)),
            decreases self.elements@.len() - i,
        {
            let e = self.elements[i].clone();
            let key = e.due_or_zero();
            let mut pos: usize = 0;
            while pos < sorted.len() && sorted[pos].due_or_zero() <= key
                invariant
                    pos <= sorted@.len(),
                    forall|k: int|
                        0 <= k < pos ==> due_key((#[trigger] sorted@[k])@) <= due_key(
                            self.elements@[i as int]@,
                        ),
                    key == due_key(self.elements@[i as int]@),
                    e@ == self.elements@[i as int]@,
                    i < self.elements@.len(),
                decreases sorted@.len() - pos,
            {
                pos = pos + 1;
            }
            let ghost s0 = recs_view(sorted@);
            sorted.insert(pos, e);
            proof {
                assert(recs_view(sorted@) =~= s0.insert(pos as int, self.elements@[i as int]@));
                lemma_insert_due_at(self.elements@[i as int]@, s0, pos as int);
                lemma_insert_due_sorted(self.elements@[i as int]@, s0);
                assert(orig.take(i as int + 1).drop_last() =~= orig.take(i as int));
                assert(orig.take(i as int + 1).last() == orig[i as int]);
            }
            i = i + 1;
        }
        proof {
            assert(orig.take(self.elements@.len() as int) =~= orig);
        }
        self.elements = sorted;
    }
}


/// The (path, text) pair the interactive selection points at, if both the
/// record and the attribute selections are in range.
pub open spec fn selected_attr(st: AppState) -> Option<(Seq<u8>, Seq<u8>)> {
    match st.list_selected {
        Some(ix) => if ix < st.elements@.len() {
            let ps = crate::records::flatten_of(
                Seq::empty(),
                crate::records::sort_fields(st.elements@[ix as int]@.fields),
            );
            match st.details_selected {
                Some(d) => if d < ps.len() {
                    Some(ps[d as int])
                } else {
                    None
                },
                None => None,
            }
        } else {
            None
        },
        None => None,
    }
}

impl AppState {
    /// The selected attribute of the selected record: its name, read off the
    /// (possibly joined) path, and its text.
    pub fn get_selected_attribute(&self) -> (r: Option<(NodeName, Vec<u8>)>)
        ensures
            match r {
                Some(p) => selected_attr(*self) matches Some(q) && p.0@ == crate::names::name_of(
                    q.0,
                ) && p.1@ == q.1,
                None => selected_attr(*self) is None,
            },
    {
        match self.list_selected {
            Some(ix) => {
                if ix < self.elements.len() {
                    match self.details_selected {
                        Some(d) => {
                            let ps = self.elements[ix].get_vecs();
                            if d < ps.len() {
                                let pair = &ps[d];
                                proof {
                                    assert(crate::records::pairs_view(ps@)[d as int] == (
                                        ps@[d as int].0@,
                                        ps@[d as int].1@,
                                    ));
                                }
                                let name = NodeName::from_str(&pair.0);
                                Some((name, crate::values::copy_bytes(&pair.1)))
                            } else {
                                None
                            }
                        },
                        None => None,
                    }
                } else {
                    None
                }
            },
            None => None,
        }
    }

    /// Appends a blank, id-less record and selects it.
    pub fn create_new_element(&mut self)
        ensures
            *final(self) == (AppState {
                elements: final(self).elements,
                list_selected: Some(old(self).elements@.len() as usize),
                ..*old(self)
            }),
            final(self).elements@.len() == old(self).elements@.len() + 1,
            forall|j: int|
                0 <= j < old(self).elements@.len() ==> (#[trigger] final(self).elements@[j])@ == old(
                    self,
                ).elements@[j]@,
            final(self).elements@.last()@ == (RecordV {
                id: None,
                fields: Seq::empty(),
                removed: false,
                modified: false,
            }),
    {
        let len = self.elements.len();
        let blank = EntryNode::new(None, Vec::new());
        proof {
            assert(fields_view(Seq::<(NodeName, NodeValue)>::empty()) =~= Seq::<
                (crate::names::NameV, crate::values::ValueV),
            >::empty());
        }
        self.elements.push(blank);
        self.list_selected = Some(len);
    }

    /// Creates an attribute with an empty value on the selected record,
    /// named by the edit buffer's content; skips if there is no buffer or no
    /// selection. The buffer is dropped either way.
    pub fn create_new_attribute_from_edit(&mut self)
        ensures
            final(self).modification_buffer is None,
            ({
                let valid = old(self).modification_buffer is Some && (old(
                    self,
                ).list_selected matches Some(ix) && ix < old(self).elements@.len());
                if valid {
                    let ix = old(self).list_selected->Some_0;
                    let name = crate::names::name_of(old(self).modification_buffer->Some_0@);
                    &&& *final(self) == (AppState {
                        elements: final(self).elements,
                        synced: false,
                        modification_buffer: None,
                        ..*old(self)
                    })
                    &&& final(self).elements@.len() == old(self).elements@.len()
                    &&& final(self).elements@[ix as int]@ == (RecordV {
                        fields: crate::values::spec_insert(
                            old(self).elements@[ix as int]@.fields,
                            name,
                            crate::values::ValueV::Text(Seq::empty()),
                        ),
                        ..old(self).elements@[ix as int]@
                    })
                    &&& (forall|j: int|
                        0 <= j < old(self).elements@.len() && j != ix
                            ==> (#[trigger] final(self).elements@[j])@ == old(self).elements@[j]@)
                } else {
                    *final(self) == (AppState { modification_buffer: None, ..*old(self) })
                }
            }),
    {
        let mut did = false;
        match &self.modification_buffer {
            Some(buf) => {
                match self.list_selected {
                    Some(ix) => {
                        if ix < self.elements.len() {
                            let name = NodeName::from_str(buf);
                            let mut e = self.elements.remove(ix);
                            let blank_text = NodeValue::Text(Vec::new());
                            proof {
                                assert(blank_text@ == crate::values::ValueV::Text(Seq::empty()));
                            }
                            e.insert_node(name, blank_text);
                            self.elements.insert(ix, e);
                            did = true;
                        }
                    },
                    None => {},
                }
            },
            None => {},
        }
        if did {
            self.synced = false;
        }
        self.modification_buffer = None;
    }

    /// Saves the edit buffer into the selected attribute and leaves editing
    /// mode: the selected record's field is rebound to the buffer's text,
    /// and where that changed the value, the record is flagged modified and
    /// the state unsynced. Without a selected attribute, nothing happens.
    pub fn save_changes(&mut self)
        ensures
            match selected_attr(*old(self)) {
                Some(q) => ({
                    let ix = old(self).list_selected->Some_0;
                    let name = crate::names::name_of(q.0);
                    let newv = crate::values::ValueV::Text(
                        match old(self).modification_buffer {
                            Some(b) => b@,
                            None => Seq::empty(),
                        },
                    );
                    let changed = crate::values::lookup(old(self).elements@[ix as int]@.fields, name)
                        != Some(newv);
                    &&& *final(self) == (AppState {
                        elements: final(self).elements,
                        synced: old(self).synced && !changed,
                        modification_buffer: None,
                        ..*old(self)
                    })
                    &&& final(self).elements@.len() == old(self).elements@.len()
                    &&& final(self).elements@[ix as int]@ == (RecordV {
                        fields: crate::values::spec_insert(
                            old(self).elements@[ix as int]@.fields,
                            name,
                            newv,
                        ),
                        modified: old(self).elements@[ix as int]@.modified || changed,
                        ..old(self).elements@[ix as int]@
                    })
                    &&& (forall|j: int|
                        0 <= j < old(self).elements@.len() && j != ix
                            ==> (#[trigger] final(self).elements@[j])@ == old(self).elements@[j]@)
                }),
                None => *final(self) == *old(self),
            },
    {
        let new_txt: Vec<u8> = match self.get_edit() {
            Some(b) => b,
            None => Vec::new(),
        };
        match self.get_selected_attribute() {
            Some((name, _)) => {
                let ix = match self.list_selected {
                    Some(ix) => ix,
                    None => {
                        proof {
                            assert(false);
                        }
                        0
                    },
                };
                let mut e = self.elements.remove(ix);
                let newv = NodeValue::Text(new_txt);
                let ghost newvv = newv@;
                let old_val = e.insert_node(name, newv);
                let changed = match &old_val {
                    Some(o) => !crate::values::value_eq(o, &NodeValue::Text(
                        match self.get_edit() {
                            Some(b) => b,
                            None => Vec::new(),
                        },
                    )),
                    None => true,
                };
                if changed {
                    e.modified();
                    self.synced = false;
                }
                self.elements.insert(ix, e);
                self.modification_buffer = None;
            },
            None => {},
        }
    }

    /// Unbinds the selected attribute from the selected record, flagging the
    /// record modified; says whether a binding went away. Joined paths of
    /// nested values name no direct field, so removing one is a no-op.
    pub fn remove_attribute(&mut self) -> (r: bool)
        ensures
            match selected_attr(*old(self)) {
                Some(q) => ({
                    let ix = old(self).list_selected->Some_0;
                    let name = crate::names::name_of(q.0);
                    let had = crate::values::lookup(old(self).elements@[ix as int]@.fields, name)
                        is Some;
                    &&& r == had
                    &&& *final(self) == (AppState { elements: final(self).elements, ..*old(self) })
                    &&& final(self).elements@.len() == old(self).elements@.len()
                    &&& final(self).elements@[ix as int]@ == (RecordV {
                        fields: crate::values::spec_remove(
                            old(self).elements@[ix as int]@.fields,
                            name,
                        ),
                        modified: old(self).elements@[ix as int]@.modified || had,
                        ..old(self).elements@[ix as int]@
                    })
                    &&& (forall|j: int|
                        0 <= j < old(self).elements@.len() && j != ix
                            ==> (#[trigger] final(self).elements@[j])@ == old(self).elements@[j]@)
                }),
                None => r == false && *final(self) == *old(self),
            },
    {
        match self.get_selected_attribute() {
            Some((name, _)) => {
                let ix = match self.list_selected {
                    Some(ix) => ix,
                    None => {
                        proof {
                            assert(false);
                        }
                        0
                    },
                };
                let mut e = self.elements.remove(ix);
                let removed = e.remove_node(&name);
                let r = match &removed {
                    Some(_) => {
                        e.modified();
                        true
                    },
                    None => false,
                };
                self.elements.insert(ix, e);
                proof {
                    let name_v = crate::names::name_of(selected_attr(*old(self))->Some_0.0);
                    crate::values::lemma_lookup_some(
                        old(self).elements@[ix as int]@.fields,
                        name_v,
                    );
                }
                r
            },
            None => false,
        }
    }
}

/// Swaps the selected record with the one before it, as the list-reorder
/// key does; out-of-range selections do nothing.
pub fn switch_up(state: &mut AppState)
    ensures
        ({
            let sw = (old(state).list_selected matches Some(i) && 0 < i < old(
                state,
            ).elements@.len());
            if sw {
                let i = old(state).list_selected->Some_0;
                &&& *final(state) == (AppState { elements: final(state).elements, ..*old(state) })
                &&& final(state).elements@ == old(state).elements@.update(
                    i - 1,
                    old(state).elements@[i as int],
                ).update(i as int, old(state).elements@[i - 1])
            } else {
                *final(state) == *old(state)
            }
        }),
{
    match state.list_selected {
        Some(i) => {
            if 0 < i && i < state.elements.len() {
                let a = state.elements.remove(i);
                state.elements.insert(i - 1, a);
                proof {
                    assert(state.elements@ =~= old(state).elements@.update(
                        i - 1,
                        old(state).elements@[i as int],
                    ).update(i as int, old(state).elements@[i - 1]));
                }
            }
        },
        None => {},
    }
}

/// Swaps the selected record with the one after it; out-of-range selections
/// do nothing.
pub fn switch_down(state: &mut AppState)
    ensures
        ({
            let sw = (old(state).list_selected matches Some(i) && i + 1 < old(
                state,
            ).elements@.len());
            if sw {
                let i = old(state).list_selected->Some_0;
                &&& *final(state) == (AppState { elements: final(state).elements, ..*old(state) })
                &&& final(state).elements@ == old(state).elements@.update(
                    i as int,
                    old(state).elements@[i + 1],
                ).update(i + 1, old(state).elements@[i as int])
            } else {
                *final(state) == *old(state)
            }
        }),
{
    match state.list_selected {
        Some(i) => {
            if i < state.elements.len() && state.elements.len() - i > 1 {
                let a = state.elements.remove(i);
                state.elements.insert(i + 1, a);
                proof {
                    assert(state.elements@ =~= old(state).elements@.update(
                        i as int,
                        old(state).elements@[i + 1],
                    ).update(i + 1, old(state).elements@[i as int]));
                }
            }
        },
        None => {},
    }
}

} // verus!
