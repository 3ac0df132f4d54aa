//! Data that come in lines of several channels.

use vstd::prelude::*;
use vstd::slice::{slice_subrange, slice_to_vec};

use crate::interop::{lossy_string, text_of_bytes};
use crate::net::{
    after_first, stream_rest, PktLine, PktLineError, PktLineIterator, PktView, Stream,
};

verus! {

broadcast use vstd::string::group_string_axioms;

/// How a transfer ends.
pub enum TransferEnd {
    /// As it should, with a line that is not an ordinary one.
    Finished,
    /// The lines end before that.
    CutOff,
    /// A line is not valid.
    Invalid(PktLineError),
    /// The server reports an error.
    Remote(Seq<char>),
}

/// What is transferred: data, messages about the progress, and how it ends.
pub struct Transfer {
    /// The data.
    pub data: Seq<u8>,
    /// The messages.
    pub messages: Seq<Seq<u8>>,
    /// How it ends.
    pub end: TransferEnd,
}

/// A transfer with data in front.
pub open spec fn with_data(data: Seq<u8>, t: Transfer) -> Transfer {
    Transfer { data: data + t.data, ..t }
}

/// A transfer with messages in front.
pub open spec fn with_messages(messages: Seq<Seq<u8>>, t: Transfer) -> Transfer {
    Transfer { messages: messages + t.messages, ..t }
}

/// What a stream of lines transfers.  The first byte of a line is its channel: data come on
/// channel 1, messages on channel 2, and an error that ends the transfer on channel 3.  A line
/// without a valid channel is data as a whole.
pub open spec fn transfer(s: Stream) -> Transfer
    decreases s.0.len(),
{
    if s.0.len() == 0 {
        Transfer {
            data: Seq::empty(),
            messages: Seq::empty(),
            end: match s.1 {
                Some(e) => TransferEnd::Invalid(e),
                None => TransferEnd::CutOff,
            },
        }
    } else {
        match s.0[0] {
            PktView::Line(c) => if c.len() > 0 && c[0] == 1 {
                with_data(c.skip(1), transfer(after_first(s)))
            } else if c.len() > 0 && c[0] == 2 {
                with_messages(seq![c.skip(1)], transfer(after_first(s)))
            } else if c.len() > 0 && c[0] == 3 {
                Transfer {
                    data: Seq::empty(),
                    messages: seq![c.skip(1)],
                    end: TransferEnd::Remote(text_of_bytes(c.skip(1))),
                }
            } else {
                with_data(c, transfer(after_first(s)))
            },
            _ => Transfer {
                data: Seq::empty(),
                messages: Seq::empty(),
                end: TransferEnd::Finished,
            },
        }
    }
}

/// What comes up to the next data in a stream of lines.
pub struct Ahead {
    /// The messages in front.
    pub messages: Seq<Seq<u8>>,
    /// The data of the first line that has some, or how the transfer ends before.
    pub line: Result<Seq<u8>, TransferEnd>,
    /// The lines after that.
    pub rest: Stream,
}

/// What comes with a message in front.
pub open spec fn after_message(message: Seq<u8>, a: Ahead) -> Ahead {
    Ahead { messages: seq![message] + a.messages, ..a }
}

/// The data of a line; nothing where it has a message or an error instead.
pub open spec fn line_data(c: Seq<u8>) -> Seq<u8> {
    if c.len() > 0 && c[0] == 1 {
        c.skip(1)
    } else if c.len() > 0 && (c[0] == 2 || c[0] == 3) {
        Seq::empty()
    } else {
        c
    }
}

/// What comes up to the next data in a stream of lines: the messages of the lines in front, and
/// the data of the first line that has some, unless the transfer ends before.
pub open spec fn ahead(s: Stream) -> Ahead
    decreases s.0.len(),
{
    let none = Seq::<Seq<u8>>::empty();
    if s.0.len() == 0 {
        Ahead { messages: none, line: Err(transfer(s).end), rest: stream_rest(s) }
    } else {
        match s.0[0] {
            PktView::Line(c) => if c.len() > 0 && c[0] == 2 {
                after_message(c.skip(1), ahead(after_first(s)))
            } else if c.len() > 0 && c[0] == 3 {
                Ahead {
                    messages: seq![c.skip(1)],
                    line: Err(TransferEnd::Remote(text_of_bytes(c.skip(1)))),
                    rest: after_first(s),
                }
            } else if line_data(c).len() > 0 {
                Ahead { messages: none, line: Ok(line_data(c)), rest: after_first(s) }
            } else {
                ahead(after_first(s))
            },
            _ => Ahead {
                messages: none,
                line: Err(TransferEnd::Finished),
                rest: after_first(s),
            },
        }
    }
}

/// What a stream transfers starts with what comes up to its next data, and goes on with what the
/// lines after that transfer.
pub proof fn theorem_ahead_comes_first(s: Stream)
    ensures
        match ahead(s).line {
            Ok(line) => line.len() > 0 && transfer(s) == with_messages(
                ahead(s).messages,
                with_data(line, transfer(ahead(s).rest)),
            ),
            Err(end) => transfer(s) == (Transfer {
                data: Seq::empty(),
                messages: ahead(s).messages,
                end,
            }),
        },
    decreases s.0.len(),
{
    let a = ahead(s);
    if s.0.len() > 0 {
        if let PktView::Line(c) = s.0[0] {
            let next = after_first(s);
            theorem_ahead_comes_first(next);
            if c.len() > 0 && c[0] == 2 {
                assert(transfer(s).messages =~= seq![c.skip(1)] + transfer(next).messages);
                if a.line is Ok {
                    assert(transfer(s).messages =~= a.messages + transfer(a.rest).messages);
                } else {
                    assert(transfer(s).messages =~= a.messages);
                }
            } else if c.len() > 0 && c[0] == 3 {
            } else if line_data(c).len() > 0 {
                assert(transfer(s).messages =~= a.messages + transfer(next).messages);
            } else {
                assert(line_data(c) + transfer(next).data =~= transfer(next).data);
            }
        }
    }
}

/// Why a transfer failed.
#[derive(Debug)]
pub enum SidebandError {
    /// The lines end before the transfer does.
    CutOff,
    /// A line is not valid.
    Invalid(PktLineError),
    /// The server reports an error.
    Remote(String),
}

/// What an error is.
pub open spec fn error_end(e: SidebandError) -> TransferEnd {
    match e {
        SidebandError::CutOff => TransferEnd::CutOff,
        SidebandError::Invalid(e) => TransferEnd::Invalid(e),
        SidebandError::Remote(text) => TransferEnd::Remote(text@),
    }
}

/// What a read gives.
#[derive(Debug)]
pub enum SidebandRead {
    /// Some of the data.
    Data(Vec<u8>),
    /// The transfer has finished.
    Finished,
    /// The transfer has failed.
    Failed(SidebandError),
}

/// Reads data from lines of several channels.
pub struct PktLineSidebandReader {
    iter: PktLineIterator,
    cur_line: Vec<u8>,
    cur_pos: usize,
}

/// What messages are.
pub open spec fn message_views(s: Seq<Vec<u8>>) -> Seq<Seq<u8>> {
    s.map_values(|m: Vec<u8>| m@)
}

impl PktLineSidebandReader {
    /// The positions are ones in the data.
    pub closed spec fn wf(&self) -> bool {
        self.iter.wf() && self.cur_pos <= self.cur_line@.len()
    }

    /// What has not been read of the data of the current line.
    pub closed spec fn line(&self) -> Seq<u8> {
        self.cur_line@.skip(self.cur_pos as int)
    }

    /// The lines after the current one.
    pub closed spec fn lines(&self) -> Stream {
        self.iter.stream()
    }

    /// What comes up to the next data.
    pub open spec fn upcoming(&self) -> Ahead {
        if self.line().len() > 0 {
            Ahead { messages: Seq::empty(), line: Ok(self.line()), rest: self.lines() }
        } else {
            ahead(self.lines())
        }
    }

    /// What is still to come.
    pub open spec fn pending(&self) -> Transfer {
        with_data(self.line(), transfer(self.lines()))
    }

    /// What is still to come starts with what comes up to the next data.
    pub proof fn theorem_upcoming_comes_first(&self)
        ensures
            match self.upcoming().line {
                Ok(line) => line.len() > 0 && self.pending() == with_messages(
                    self.upcoming().messages,
                    with_data(line, transfer(self.upcoming().rest)),
                ),
                Err(end) => self.pending() == (Transfer {
                    data: Seq::empty(),
                    messages: self.upcoming().messages,
                    end,
                }),
            },
    {
        if self.line().len() > 0 {
            assert(self.pending().messages =~= Seq::<Seq<u8>>::empty() + self.pending().messages);
        } else {
            theorem_ahead_comes_first(self.lines());
            assert(self.pending().data =~= transfer(self.lines()).data);
        }
    }

    /// A reader of what the given lines transfer.
    pub fn new(iter: PktLineIterator) -> (r: Self)
        requires
            iter.wf(),
        ensures
            r.wf(),
            r.line().len() == 0,
            r.lines() == iter.stream(),
            r.pending() == transfer(iter.stream()),
    {
        let r = PktLineSidebandReader { iter, cur_line: Vec::new(), cur_pos: 0 };
        assert(r.pending().data =~= transfer(iter.stream()).data);
        r
    }

    /// Reads lines until there are data, and gives the messages that come before them; or the
    /// end.
    fn fill(&mut self, messages: &mut Vec<Vec<u8>>) -> (r: Option<Result<(), SidebandError>>)
        requires
            old(self).wf(),
            old(messages)@.len() == 0,
        ensures
            final(self).wf(),
            message_views(final(messages)@) == old(self).upcoming().messages,
            final(self).lines() == old(self).upcoming().rest,
            match r {
                None => old(self).upcoming().line == Ok::<Seq<u8>, TransferEnd>(final(self).line())
                    && final(self).line().len() > 0,
                Some(Ok(_)) => old(self).upcoming().line == Err::<Seq<u8>, TransferEnd>(
                    TransferEnd::Finished,
                ) && final(self).line().len() == 0,
                Some(Err(e)) => old(self).upcoming().line == Err::<Seq<u8>, TransferEnd>(
                    error_end(e),
                ) && final(self).line().len() == 0,
            },
    {
        let ghost all = self.upcoming();
        assert(message_views(messages@) =~= Seq::empty());
        assert(all.messages =~= message_views(messages@) + all.messages);
        while self.cur_pos >= self.cur_line.len()
            invariant
                self.wf(),
                all == old(self).upcoming(),
                all == (Ahead {
                    messages: message_views(messages@) + self.upcoming().messages,
                    ..self.upcoming()
                }),
            decreases self.iter.remaining(),
        {
            let ghost stream = self.iter.stream();
            let ghost so_far = message_views(messages@);
            assert(self.line() =~= Seq::empty());
            assert(all == (Ahead { messages: so_far + ahead(stream).messages, ..ahead(stream) }));
            let line = match self.iter.next() {
                None => {
                    assert(all.messages =~= so_far);
                    return Some(Err(SidebandError::CutOff));
                },
                Some(Err(e)) => {
                    assert(all.messages =~= so_far);
                    return Some(Err(SidebandError::Invalid(e)));
                },
                Some(Ok(line)) => line,
            };
            let content = match line {
                PktLine::Line(content) => content,
                _ => {
                    assert(all.messages =~= so_far);
                    return Some(Ok(()));
                },
            };
            let channel: u8 = if content.len() > 0 {
                content[0]
            } else {
                0
            };
            if channel == 1 || channel == 2 || channel == 3 {
                let rest = slice_subrange(content.as_slice(), 1, content.len());
                assert(rest@ =~= content@.skip(1));
                if channel == 1 {
                    self.cur_line = slice_to_vec(rest);
                    self.cur_pos = 0;
                    assert(self.line() =~= line_data(content@));
                } else {
                    messages.push(slice_to_vec(rest));
                    assert(message_views(messages@) =~= so_far.push(content@.skip(1)));
                    if channel == 3 {
                        assert(all.messages =~= message_views(messages@));
                        return Some(Err(SidebandError::Remote(lossy_string(rest))));
                    }
                    assert(all.messages =~= message_views(messages@) + ahead(
                        self.iter.stream(),
                    ).messages);
                }
            } else {
                self.cur_line = content;
                self.cur_pos = 0;
                assert(self.line() =~= line_data(content@));
            }
        }
        assert(self.line().len() > 0);
        assert(all.messages =~= message_views(messages@));
        None
    }

    /// Reads data: as much as the limit allows of the next line that has data, or of what is
    /// left of the current one.  Gives also the messages that come before that line.
    pub fn read(&mut self, limit: usize) -> (r: (SidebandRead, Vec<Vec<u8>>))
        requires
            old(self).wf(),
        ensures
            final(self).wf(),
            message_views(r.1@) == old(self).upcoming().messages,
            final(self).lines() == old(self).upcoming().rest,
            match r.0 {
                SidebandRead::Data(data) => old(self).upcoming().line matches Ok(line) && {
                    let n = if line.len() < limit {
                        line.len() as int
                    } else {
                        limit as int
                    };
                    data@ == line.take(n) && final(self).line() == line.skip(n)
                },
                SidebandRead::Finished => old(self).upcoming().line == Err::<
                    Seq<u8>,
                    TransferEnd,
                >(TransferEnd::Finished) && final(self).line().len() == 0,
                SidebandRead::Failed(e) => old(self).upcoming().line == Err::<
                    Seq<u8>,
                    TransferEnd,
                >(error_end(e)) && final(self).line().len() == 0,
            },
    {
        let mut messages: Vec<Vec<u8>> = Vec::new();
        match self.fill(&mut messages) {
            Some(Ok(_)) => {
                return (SidebandRead::Finished, messages);
            },
            Some(Err(e)) => {
                return (SidebandRead::Failed(e), messages);
            },
            None => {},
        }
        let ghost line = self.line();
        let available: usize = self.cur_line.len() - self.cur_pos;
        let count: usize = if available > limit {
            limit
        } else {
            available
        };
        let piece = slice_subrange(self.cur_line.as_slice(), self.cur_pos, self.cur_pos + count);
        let data = slice_to_vec(piece);
        self.cur_pos = self.cur_pos + count;
        assert(data@ =~= line.take(count as int));
        assert(self.line() =~= line.skip(count as int));
        (SidebandRead::Data(data), messages)
    }

    /// Reads everything that is still to come: the data, the messages, and what went wrong if
    /// the transfer failed.
    pub fn read_to_end(&mut self) -> (r: (Vec<u8>, Vec<Vec<u8>>, Option<SidebandError>))
        requires
            old(self).wf(),
        ensures
            final(self).wf(),
            old(self).pending() == (Transfer {
                data: r.0@,
                messages: message_views(r.1@),
                end: match r.2 {
                    None => TransferEnd::Finished,
                    Some(e) => error_end(e),
                },
            }),
    {
        let mut data: Vec<u8> = Vec::new();
        let mut messages: Vec<Vec<u8>> = Vec::new();
        let ghost all = self.pending();
        assert(message_views(messages@) =~= Seq::empty());
        assert(all.messages =~= message_views(messages@) + self.pending().messages);
        assert(all.data =~= data@ + self.pending().data);
        loop
            invariant
                self.wf(),
                all == old(self).pending(),
                all == with_messages(
                    message_views(messages@),
                    with_data(data@, self.pending()),
                ),
            decreases self.pending().data.len(),
        {
            let ghost so_far = message_views(messages@);
            let ghost read = data@;
            let ghost rest = self.pending();
            let ghost upcoming = self.upcoming();
            proof {
                self.theorem_upcoming_comes_first();
            }
            let (outcome, mut news): (SidebandRead, Vec<Vec<u8>>) = self.read(4096);
            let ghost new = message_views(news@);
            messages.append(&mut news);
            assert(message_views(messages@) =~= so_far + new);
            match outcome {
                SidebandRead::Data(piece) => {
                    crate::index::push_bytes(&mut data, piece.as_slice());
                    assert(rest.data =~= piece@ + self.pending().data);
                    assert(all.messages =~= message_views(messages@) + self.pending().messages);
                    assert(all.data =~= data@ + self.pending().data);
                },
                SidebandRead::Finished => {
                    assert(all.data =~= data@);
                    assert(all.messages =~= message_views(messages@));
                    return (data, messages, None);
                },
                SidebandRead::Failed(e) => {
                    assert(all.data =~= data@);
                    assert(all.messages =~= message_views(messages@));
                    return (data, messages, Some(e));
                },
            }
        }
    }
}

} // verus!
