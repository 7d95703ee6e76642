use vstd::prelude::*;

use crate::text::chars_of;

verus! {

/// The screens of the front end.
#[derive(Clone, Copy, Debug, PartialEq, Eq, Structural)]
pub enum Screen {
    Console,
    Dialog,
    Graph,
}

/// What a command typed after ':' asks of the front end.
#[derive(Clone, Copy, Debug, PartialEq, Eq, Structural)]
pub enum ScreenAction {
    Switch(Screen),
    Quit,
    /// Nothing was typed.
    Nothing,
    Unknown,
}

/// The meaning of each front-end command.
pub open spec fn screen_action_spec(cmd: Seq<char>) -> ScreenAction {
    if cmd == "c"@ {
        ScreenAction::Switch(Screen::Console)
    } else if cmd == "d"@ {
        ScreenAction::Switch(Screen::Dialog)
    } else if cmd == "g"@ {
        ScreenAction::Switch(Screen::Graph)
    } else if cmd == "q"@ {
        ScreenAction::Quit
    } else if cmd.len() == 0 {
        ScreenAction::Nothing
    } else {
        ScreenAction::Unknown
    }
}

/// Reads a front-end command (already trimmed).
pub fn screen_action(cmd: &str) -> (r: ScreenAction)
    ensures
        r == screen_action_spec(cmd@),
{
    proof {
        reveal_strlit("c");
        reveal_strlit("d");
        reveal_strlit("g");
        reveal_strlit("q");
    }
    let cs = chars_of(cmd);
    if cs.len() == 1 {
        let c = cs[0];
        assert(cmd@ =~= seq![c]);
        if c == 'c' {
            assert(cmd@ =~= "c"@);
            return ScreenAction::Switch(Screen::Console);
        } else if c == 'd' {
            assert(cmd@ =~= "d"@);
            return ScreenAction::Switch(Screen::Dialog);
        } else if c == 'g' {
            assert(cmd@ =~= "g"@);
            return ScreenAction::Switch(Screen::Graph);
        } else if c == 'q' {
            assert(cmd@ =~= "q"@);
            return ScreenAction::Quit;
        }
        assert(cmd@ != "c"@ && cmd@ != "d"@ && cmd@ != "g"@ && cmd@ != "q"@);
        return ScreenAction::Unknown;
    }
    if cs.len() == 0 {
        return ScreenAction::Nothing;
    }
    ScreenAction::Unknown
}

} // verus!
