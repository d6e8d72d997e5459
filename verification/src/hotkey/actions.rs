//! Configured hotkeys, and the search for keyboards to hear them on.
use vstd::prelude::*;

verus! {

/// A command to the daemon.
#[derive(Debug, PartialEq, Eq)]
pub enum Command {
    /// Start or stop recording.
    Toggle { language: Option<String> },
    Cancel,
    CommandMode,
    Speak,
    QuickMenu,
}

impl Clone for Command {
    fn clone(&self) -> (r: Self)
        ensures
            r == *self,
    {
        match self {
            Command::Toggle { language } => match language {
                Some(text) => Command::Toggle { language: Some(text.clone()) },
                None => Command::Toggle { language: None },
            },
            Command::Cancel => Command::Cancel,
            Command::CommandMode => Command::CommandMode,
            Command::Speak => Command::Speak,
            Command::QuickMenu => Command::QuickMenu,
        }
    }
}

/// A key, with the modifiers to hold while it is pressed.
#[derive(Debug, PartialEq, Eq)]
pub struct HotkeyBinding {
    pub modifiers: Vec<u16>,
    pub trigger: u16,
}

/// A configured hotkey action.
#[derive(Debug, PartialEq, Eq)]
pub struct HotkeyAction {
    pub binding: HotkeyBinding,
    pub command: Command,
}

/// The hotkeys of the configuration: nothing where one is not set, else its binding
/// or why it could not be read.
pub struct ParsedHotkeys {
    pub toggle: Option<Result<HotkeyBinding, String>>,
    pub cancel: Option<Result<HotkeyBinding, String>>,
    pub command: Option<Result<HotkeyBinding, String>>,
    pub speak: Option<Result<HotkeyBinding, String>>,
}

/// The action for one hotkey; none where it is not set or could not be read.
pub open spec fn action_of(
    parsed: Option<Result<HotkeyBinding, String>>,
    command: Command,
) -> Seq<HotkeyAction> {
    match parsed {
        Some(Ok(binding)) => seq![HotkeyAction { binding, command }],
        _ => Seq::empty(),
    }
}

/// The actions for all hotkeys.
pub open spec fn configured_actions(parsed: ParsedHotkeys) -> Seq<HotkeyAction> {
    action_of(parsed.toggle, Command::Toggle { language: None }) + action_of(
        parsed.cancel,
        Command::Cancel,
    ) + action_of(parsed.command, Command::CommandMode) + action_of(parsed.speak, Command::Speak)
}

/// Adds the action for one hotkey, where it has one.
fn push_action(
    actions: &mut Vec<HotkeyAction>,
    parsed: Option<Result<HotkeyBinding, String>>,
    command: Command,
)
    ensures
        final(actions)@ == old(actions)@ + action_of(parsed, command),
{
    if let Some(Ok(binding)) = parsed {
        actions.push(HotkeyAction { binding, command });
    }
    assert(actions@ =~= old(actions)@ + action_of(parsed, command));
}

/// The actions that the configured hotkeys ask for. A hotkey that could not be
/// read is left out, and the others stay.
pub fn hotkey_actions(parsed: ParsedHotkeys) -> (r: Vec<HotkeyAction>)
    ensures
        r@ == configured_actions(parsed),
{
    let mut actions: Vec<HotkeyAction> = Vec::new();
    push_action(&mut actions, parsed.toggle, Command::Toggle { language: None });
    push_action(&mut actions, parsed.cancel, Command::Cancel);
    push_action(&mut actions, parsed.command, Command::CommandMode);
    push_action(&mut actions, parsed.speak, Command::Speak);
    assert(actions@ =~= configured_actions(parsed));
    actions
}

/// Every hotkey that was read has one action, with its own binding and command, and no
/// other action is there: one that is not set or could not be read has none.
pub proof fn every_read_hotkey_has_its_action(parsed: ParsedHotkeys, action: HotkeyAction)
    ensures
        configured_actions(parsed).contains(action) <==> {
            ||| parsed.toggle == Some(Ok::<HotkeyBinding, String>(action.binding))
                && action.command == (Command::Toggle { language: None })
            ||| parsed.cancel == Some(Ok::<HotkeyBinding, String>(action.binding))
                && action.command == Command::Cancel
            ||| parsed.command == Some(Ok::<HotkeyBinding, String>(action.binding))
                && action.command == Command::CommandMode
            ||| parsed.speak == Some(Ok::<HotkeyBinding, String>(action.binding))
                && action.command == Command::Speak
        },
{
    let all = configured_actions(parsed);
    let a = action_of(parsed.toggle, Command::Toggle { language: None });
    let b = action_of(parsed.cancel, Command::Cancel);
    let c = action_of(parsed.command, Command::CommandMode);
    let d = action_of(parsed.speak, Command::Speak);
    assert(all == a + b + c + d);
    if a.len() > 0 {
        assert(all[0] == a[0]);
    }
    if b.len() > 0 {
        assert(all[a.len() as int] == b[0]);
    }
    if c.len() > 0 {
        assert(all[(a.len() + b.len()) as int] == c[0]);
    }
    if d.len() > 0 {
        assert(all[(a.len() + b.len() + c.len()) as int] == d[0]);
    }
}

/// The place of a command among those that hotkeys are configured for.
pub open spec fn rank(command: Command) -> int {
    match command {
        Command::Toggle { .. } => 0,
        Command::Cancel => 1,
        Command::CommandMode => 2,
        Command::Speak => 3,
        Command::QuickMenu => 4,
    }
}

/// Actions stand in the order toggle, cancel, command mode, speak, and no command has
/// two of them.
pub proof fn actions_stand_in_order_of_their_commands(parsed: ParsedHotkeys, i: int, j: int)
    requires
        0 <= i < j < configured_actions(parsed).len(),
    ensures
        rank(configured_actions(parsed)[i].command) < rank(configured_actions(parsed)[j].command),
{
}

/// One of the configured actions at most is a toggle.
pub proof fn one_toggle_is_configured(parsed: ParsedHotkeys, i: int, j: int)
    requires
        0 <= i < configured_actions(parsed).len(),
        0 <= j < configured_actions(parsed).len(),
        configured_actions(parsed)[i].command is Toggle,
        configured_actions(parsed)[j].command is Toggle,
    ensures
        i == j,
{
}

/// Maximum number of attempts to find keyboard input devices.
pub const HOTKEY_MAX_RETRIES: u32 = 10;

/// Initial retry delay in seconds (doubles each attempt, capped).
pub const HOTKEY_INITIAL_DELAY_SECS: u64 = 1;

/// The longest retry delay in seconds.
pub const HOTKEY_MAX_DELAY_SECS: u64 = 10;

/// The seconds to wait after the attempt numbered `attempt`, from 1 on.
pub open spec fn backoff(attempt: nat) -> nat
    decreases attempt,
{
    if attempt <= 1 {
        HOTKEY_INITIAL_DELAY_SECS as nat
    } else {
        let doubled = 2 * backoff((attempt - 1) as nat);
        if doubled <= HOTKEY_MAX_DELAY_SECS {
            doubled
        } else {
            HOTKEY_MAX_DELAY_SECS as nat
        }
    }
}

/// What to do after an attempt.
#[derive(Debug, Clone, Copy, PartialEq, Eq)]
pub enum SearchStep {
    /// Listen on the keyboards that were found.
    Listen,
    /// Wait, then look again.
    Retry { delay_secs: u64 },
    /// Leave hotkeys disabled.
    GiveUp,
}

/// The search for keyboards, which may come up only after the daemon.
pub struct KeyboardSearch {
    attempt: u32,
    delay_secs: u64,
}

impl KeyboardSearch {
    /// The attempt that comes next is one of those allowed, and the delay after it
    /// is its own.
    pub closed spec fn wf(&self) -> bool {
        &&& 1 <= self.attempt <= HOTKEY_MAX_RETRIES
        &&& self.delay_secs == backoff(self.attempt as nat)
    }

    /// The number of the attempt that comes next, from 1 on.
    pub closed spec fn attempt(&self) -> nat {
        self.attempt as nat
    }

    /// A search before its first attempt; none where there is no hotkey to hear.
    pub fn begin(actions: &Vec<HotkeyAction>) -> (r: Option<Self>)
        ensures
            r is None <==> actions@.len() == 0,
            r matches Some(search) ==> search.wf() && search.attempt() == 1,
    {
        if actions.len() == 0 {
            None
        } else {
            Some(KeyboardSearch { attempt: 1, delay_secs: HOTKEY_INITIAL_DELAY_SECS })
        }
    }

    /// What to do after an attempt that found `found` keyboards, or could not look
    /// for them.
    pub fn after_attempt(&mut self, found: Option<usize>) -> (r: SearchStep)
        requires
            old(self).wf(),
        ensures
            final(self).wf(),
            (found matches Some(n) && n > 0) ==> {
                &&& r == SearchStep::Listen
                &&& final(self).attempt() == old(self).attempt()
            },
            !(found matches Some(n) && n > 0) && old(self).attempt() == HOTKEY_MAX_RETRIES ==> {
                &&& r == SearchStep::GiveUp
                &&& final(self).attempt() == old(self).attempt()
            },
            !(found matches Some(n) && n > 0) && old(self).attempt() != HOTKEY_MAX_RETRIES ==> {
                &&& r matches SearchStep::Retry { delay_secs } && delay_secs == backoff(
                    old(self).attempt(),
                )
                &&& final(self).attempt() == old(self).attempt() + 1
            },
    {
        if let Some(n) = found {
            if n > 0 {
                return SearchStep::Listen;
            }
        }
        if self.attempt == HOTKEY_MAX_RETRIES {
            return SearchStep::GiveUp;
        }
        let delay_secs: u64 = self.delay_secs;
        proof {
            backoff_is_capped(self.attempt as nat);
        }
        self.attempt = self.attempt + 1;
        self.delay_secs = if delay_secs * 2 <= HOTKEY_MAX_DELAY_SECS {
            delay_secs * 2
        } else {
            HOTKEY_MAX_DELAY_SECS
        };
        SearchStep::Retry { delay_secs }
    }
}

/// A delay is at least the initial and at most the longest one.
pub proof fn backoff_is_capped(attempt: nat)
    ensures
        HOTKEY_INITIAL_DELAY_SECS <= backoff(attempt) <= HOTKEY_MAX_DELAY_SECS,
    decreases attempt,
{
    if attempt > 1 {
        backoff_is_capped((attempt - 1) as nat);
    }
}

/// The delays double from one second on, up to ten seconds.
pub proof fn backoff_doubles_up_to_the_cap(attempt: nat)
    requires
        attempt >= 1,
    ensures
        backoff(attempt) == if vstd::arithmetic::power2::pow2((attempt - 1) as nat) <= 10 {
            vstd::arithmetic::power2::pow2((attempt - 1) as nat)
        } else {
            10
        },
    decreases attempt,
{
    vstd::arithmetic::power2::lemma2_to64();
    if attempt > 1 {
        backoff_doubles_up_to_the_cap((attempt - 1) as nat);
        vstd::arithmetic::power2::lemma_pow2_unfold((attempt - 1) as nat);
    }
}

} // verus!
