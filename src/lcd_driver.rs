use vstd::prelude::*;

verus! {

/// The commands that the display driver accepts.
#[derive(Clone, Copy, Debug, PartialEq, Eq, Structural)]
pub enum LCDProgramm {
    Buffer,
    Clear,
    Move,
    Bcklight,
    CursorMode,
    ShiftDisplay,
    Home,
    Write,
}

/// An argument of a display command.
pub enum LCDArg {
    String(String),
    Int(i128),
    Bool(bool),
}

/// A display command with its named arguments.
pub struct LCDcommand {
    pub cmd: LCDProgramm,
    pub args: Option<Vec<(String, LCDArg)>>,
}

/// The mathematical value of an [`LCDArg`].
pub enum ArgView {
    Str(Seq<char>),
    Int(int),
    Bool(bool),
}

impl View for LCDArg {
    type V = ArgView;

    open spec fn view(&self) -> ArgView {
        match self {
            LCDArg::String(s) => ArgView::Str(s@),
            LCDArg::Int(i) => ArgView::Int(*i as int),
            LCDArg::Bool(b) => ArgView::Bool(*b),
        }
    }
}

/// The mathematical value of an [`LCDcommand`].
pub struct CommandView {
    pub cmd: LCDProgramm,
    pub args: Option<Seq<(Seq<char>, ArgView)>>,
}

impl View for LCDcommand {
    type V = CommandView;

    open spec fn view(&self) -> CommandView {
        CommandView {
            cmd: self.cmd,
            args: match self.args {
                Some(v) => Some(v@.map_values(|a: (String, LCDArg)| (a.0@, a.1@))),
                None => None,
            },
        }
    }
}

pub open spec fn bare(cmd: LCDProgramm) -> CommandView {
    CommandView { cmd, args: None }
}

pub open spec fn move_view(x: int, y: int) -> CommandView {
    CommandView { cmd: LCDProgramm::Move, args: Some(seq![("x"@, ArgView::Int(x)), ("y"@, ArgView::Int(y))]) }
}

pub open spec fn write_view(text: Seq<char>) -> CommandView {
    CommandView {
        cmd: LCDProgramm::Buffer,
        args: Some(seq![("text"@, ArgView::Str(text)), ("directly"@, ArgView::Bool(true))]),
    }
}

pub open spec fn backlight_view(state: bool) -> CommandView {
    CommandView { cmd: LCDProgramm::Bcklight, args: Some(seq![("state"@, ArgView::Bool(state))]) }
}

/// Times a command is sent: once, and once more after a reconnection.
pub const MAX_SEND_ATTEMPTS: u32 = 2;

/// What came of one attempt to send a command.
#[derive(Clone, Copy, Debug, PartialEq, Eq, Structural)]
pub enum SendEvent {
    /// The command was written.
    Written,
    /// The write failed.
    WriteFailed,
    /// The socket reports an error of its own.
    SocketError,
}

/// What the driver does after an attempt to send a command.
#[derive(Clone, Copy, Debug, PartialEq, Eq, Structural)]
pub enum SendAction {
    /// Flush the socket: the command is sent.
    Flush,
    /// Reconnect and send again.
    Reconnect,
    /// Give up with an I/O error.
    Fail,
}

/// The decision after the attempt numbered `attempt` (from 1) ended in
/// `event`: a failed write is retried once after a reconnection, a socket
/// error is fatal at once.
pub fn next_send_action(attempt: u32, event: SendEvent) -> (r: SendAction)
    ensures
        event is Written ==> r is Flush,
        event is SocketError ==> r is Fail,
        event is WriteFailed ==> (r is Reconnect <==> attempt < MAX_SEND_ATTEMPTS) && (r is Fail
            <==> attempt >= MAX_SEND_ATTEMPTS),
{
    match event {
        SendEvent::Written => SendAction::Flush,
        SendEvent::SocketError => SendAction::Fail,
        SendEvent::WriteFailed => if attempt < MAX_SEND_ATTEMPTS {
            SendAction::Reconnect
        } else {
            SendAction::Fail
        },
    }
}

impl LCDcommand {
    pub fn clear() -> (r: LCDcommand)
        ensures
            r@ == bare(LCDProgramm::Clear),
    {
        LCDcommand { cmd: LCDProgramm::Clear, args: None }
    }

    pub fn home() -> (r: LCDcommand)
        ensures
            r@ == bare(LCDProgramm::Home),
    {
        LCDcommand { cmd: LCDProgramm::Home, args: None }
    }

    /// Moves the cursor to column `x` of row `y`.
    pub fn move_to(x: i128, y: i128) -> (r: LCDcommand)
        ensures
            r@ == move_view(x as int, y as int),
    {
        let args = vec![
            (String::from_str("x"), LCDArg::Int(x)),
            (String::from_str("y"), LCDArg::Int(y)),
        ];
        let r = LCDcommand { cmd: LCDProgramm::Move, args: Some(args) };
        assert(r@.args->0 =~= move_view(x as int, y as int).args->0);
        r
    }

    /// Writes `text` at the cursor, shown at once.
    pub fn write(text: &String) -> (r: LCDcommand)
        ensures
            r@ == write_view(text@),
    {
        let args = vec![
            (String::from_str("text"), LCDArg::String(text.clone())),
            (String::from_str("directly"), LCDArg::Bool(true)),
        ];
        let r = LCDcommand { cmd: LCDProgramm::Buffer, args: Some(args) };
        assert(r@.args->0 =~= write_view(text@).args->0);
        r
    }

    /// Switches the backlight on or off.
    pub fn backlight(state: bool) -> (r: LCDcommand)
        ensures
            r@ == backlight_view(state),
    {
        let args = vec![(String::from_str("state"), LCDArg::Bool(state))];
        let r = LCDcommand { cmd: LCDProgramm::Bcklight, args: Some(args) };
        assert(r@.args->0 =~= backlight_view(state).args->0);
        r
    }
}

pub open spec fn command_views(s: Seq<LCDcommand>) -> Seq<CommandView> {
    s.map_values(|c: LCDcommand| c@)
}

/// The commands sent right after connecting: clear and home, if asked.
pub fn connect_commands(clear: bool) -> (r: Vec<LCDcommand>)
    ensures
        command_views(r@) == if clear {
            seq![bare(LCDProgramm::Clear), bare(LCDProgramm::Home)]
        } else {
            Seq::empty()
        },
{
    let mut r: Vec<LCDcommand> = Vec::new();
    if clear {
        r.push(LCDcommand::clear());
        r.push(LCDcommand::home());
    }
    assert(command_views(r@) =~= if clear {
        seq![bare(LCDProgramm::Clear), bare(LCDProgramm::Home)]
    } else {
        Seq::empty()
    });
    r
}

/// Whether a connection made for a message clears the display first: unless
/// told otherwise, it does.
pub fn clears_on_connect(clear_lcd: Option<bool>) -> (r: bool)
    ensures
        r == match clear_lcd {
            Some(c) => c,
            None => true,
        },
{
    match clear_lcd {
        Some(c) => c,
        None => true,
    }
}

/// The commands that show a message: clear first if asked, then, with a
/// message, move to the top-left corner and write it.
pub fn prepare_lcd_commands(msg: Option<&String>, clear_lcd: Option<bool>) -> (r: Vec<LCDcommand>)
    ensures
        command_views(r@) == (if clear_lcd == Some(true) {
            seq![bare(LCDProgramm::Clear)]
        } else {
            Seq::empty()
        }) + match msg {
            Some(m) => seq![move_view(0, 0), write_view(m@)],
            None => Seq::empty(),
        },
{
    let mut r: Vec<LCDcommand> = Vec::new();
    if let Some(true) = clear_lcd {
        r.push(LCDcommand::clear());
    }
    let ghost first = r@;
    if let Some(m) = msg {
        r.push(LCDcommand::move_to(0, 0));
        r.push(LCDcommand::write(m));
    }
    proof {
        assert(command_views(first) =~= if clear_lcd == Some(true) {
            seq![bare(LCDProgramm::Clear)]
        } else {
            Seq::empty()
        });
    }
    assert(command_views(r@) =~= command_views(first) + match msg {
        Some(m) => seq![move_view(0, 0), write_view(m@)],
        None => Seq::empty(),
    });
    r
}

} // verus!
