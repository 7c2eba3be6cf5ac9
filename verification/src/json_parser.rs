//! The parser: a token queue to a value tree.
//!
//! The grammar of §the wire format is handled one token at a time by an
//! explicit-stack machine, so recursion depth does not depend on input
//! nesting.  Commas in arrays merely separate: they are skipped wherever
//! they appear, so a trailing comma before `]` is tolerated, as is one
//! before `}`.  The machine stops at the first complete document value and
//! does not require the queue to be exhausted.  Parse failure is an absent
//! result.

use vstd::prelude::*;
use crate::json_basic::JsonData;
use crate::json_basic::JsonNode;
use crate::json_basic::entries_data;
use crate::json_basic::entries_insert;
use crate::json_basic::nodes_data;
use crate::json_basic::lemma_nodes_data_push;
use crate::json_basic::spec_obj_insert;
use crate::json_impl::JsonToken;
use crate::json_impl::TokData;
use crate::json_impl::toks_data;

verus! {

/// What an object frame waits for next.
pub enum ObjModeData {
    WantKeyOrEnd,
    WantColon(Seq<char>),
    WantValue(Seq<char>),
    WantCommaOrEnd,
}

/// One spec-level frame of the parser's stack: a container being filled.
pub enum FrameData {
    ArrFrame(Seq<JsonData>),
    ObjFrame(Seq<(Seq<char>, JsonData)>, ObjModeData),
}

/// What one machine step yields.
pub enum StepData {
    StepMore(Seq<FrameData>),
    StepDone(JsonData),
    StepFail,
}

/// Deliver a completed value to the enclosing frame, or finish.
pub open spec fn spec_put(stack: Seq<FrameData>, v: JsonData) -> StepData {
    if stack.len() == 0 {
        StepData::StepDone(v)
    } else {
        let rest = stack.drop_last();
        match stack.last() {
            FrameData::ArrFrame(items) => StepData::StepMore(
                rest.push(FrameData::ArrFrame(items.push(v))),
            ),
            FrameData::ObjFrame(es, mode) => match mode {
                ObjModeData::WantValue(k) => StepData::StepMore(
                    rest.push(
                        FrameData::ObjFrame(spec_obj_insert(es, k, v), ObjModeData::WantCommaOrEnd),
                    ),
                ),
                _ => StepData::StepFail,
            },
        }
    }
}

/// The leaf value of a leaf token, if `t` is one.
pub open spec fn leaf_of(t: TokData) -> Option<JsonData> {
    match t {
        TokData::Text(s) => Some(JsonData::Text(s)),
        TokData::Number(n) => Some(JsonData::Number(n)),
        TokData::Boolean(b) => Some(JsonData::Boolean(b)),
        TokData::Null => Some(JsonData::Null),
        _ => None,
    }
}

/// One machine step: consume `t` in state `stack`.
pub open spec fn spec_step(stack: Seq<FrameData>, t: TokData) -> StepData {
    if stack.len() == 0 {
        match leaf_of(t) {
            Some(v) => StepData::StepDone(v),
            None => match t {
                TokData::LeftBrace => StepData::StepMore(
                    seq![FrameData::ObjFrame(Seq::empty(), ObjModeData::WantKeyOrEnd)],
                ),
                TokData::LeftBracket => StepData::StepMore(seq![FrameData::ArrFrame(Seq::empty())]),
                _ => StepData::StepFail,
            },
        }
    } else {
        let rest = stack.drop_last();
        match stack.last() {
            FrameData::ArrFrame(items) => match t {
                TokData::RightBracket => spec_put(rest, JsonData::Array(items)),
                TokData::Comma => StepData::StepMore(stack),
                TokData::LeftBrace => StepData::StepMore(
                    stack.push(FrameData::ObjFrame(Seq::empty(), ObjModeData::WantKeyOrEnd)),
                ),
                TokData::LeftBracket => StepData::StepMore(
                    stack.push(FrameData::ArrFrame(Seq::empty())),
                ),
                _ => match leaf_of(t) {
                    Some(v) => StepData::StepMore(
                        rest.push(FrameData::ArrFrame(items.push(v))),
                    ),
                    None => StepData::StepFail,
                },
            },
            FrameData::ObjFrame(es, mode) => match mode {
                ObjModeData::WantKeyOrEnd => match t {
                    TokData::RightBrace => spec_put(rest, JsonData::Object(es)),
                    TokData::Text(k) => StepData::StepMore(
                        rest.push(FrameData::ObjFrame(es, ObjModeData::WantColon(k))),
                    ),
                    _ => StepData::StepFail,
                },
                ObjModeData::WantColon(k) => match t {
                    TokData::Colon => StepData::StepMore(
                        rest.push(FrameData::ObjFrame(es, ObjModeData::WantValue(k))),
                    ),
                    _ => StepData::StepFail,
                },
                ObjModeData::WantValue(k) => match t {
                    TokData::LeftBrace => StepData::StepMore(
                        stack.push(FrameData::ObjFrame(Seq::empty(), ObjModeData::WantKeyOrEnd)),
                    ),
                    TokData::LeftBracket => StepData::StepMore(
                        stack.push(FrameData::ArrFrame(Seq::empty())),
                    ),
                    _ => match leaf_of(t) {
                        Some(v) => StepData::StepMore(
                            rest.push(
                                FrameData::ObjFrame(
                                    spec_obj_insert(es, k, v),
                                    ObjModeData::WantCommaOrEnd,
                                ),
                            ),
                        ),
                        None => StepData::StepFail,
                    },
                },
                ObjModeData::WantCommaOrEnd => match t {
                    TokData::Comma => StepData::StepMore(
                        rest.push(FrameData::ObjFrame(es, ObjModeData::WantKeyOrEnd)),
                    ),
                    TokData::RightBrace => spec_put(rest, JsonData::Object(es)),
                    _ => StepData::StepFail,
                },
            },
        }
    }
}

/// Run the machine over `toks` from state `stack` until a document value is
/// complete; running out of tokens first is a parse failure.
pub open spec fn spec_run(toks: Seq<TokData>, stack: Seq<FrameData>) -> Option<JsonData>
    decreases toks.len(),
{
    if toks.len() == 0 {
        None
    } else {
        match spec_step(stack, toks[0]) {
            StepData::StepFail => None,
            StepData::StepDone(v) => Some(v),
            StepData::StepMore(st) => spec_run(toks.drop_first(), st),
        }
    }
}

/// Parse one document value from the front of `toks`.
pub open spec fn spec_parse(toks: Seq<TokData>) -> Option<JsonData> {
    spec_run(toks, Seq::empty())
}

/// What an object frame of the executable machine waits for next.
pub enum ObjMode {
    WantKeyOrEnd,
    WantColon(String),
    WantValue(String),
    WantCommaOrEnd,
}

impl View for ObjMode {
    type V = ObjModeData;

    open spec fn view(&self) -> ObjModeData {
        match self {
            ObjMode::WantKeyOrEnd => ObjModeData::WantKeyOrEnd,
            ObjMode::WantColon(k) => ObjModeData::WantColon(k@),
            ObjMode::WantValue(k) => ObjModeData::WantValue(k@),
            ObjMode::WantCommaOrEnd => ObjModeData::WantCommaOrEnd,
        }
    }
}

/// One frame of the executable machine's stack.
pub enum Frame {
    ArrFrame(Vec<JsonNode>),
    ObjFrame(Vec<(String, JsonNode)>, ObjMode),
}

impl View for Frame {
    type V = FrameData;

    open spec fn view(&self) -> FrameData {
        match self {
            Frame::ArrFrame(items) => FrameData::ArrFrame(nodes_data(items@)),
            Frame::ObjFrame(es, mode) => FrameData::ObjFrame(entries_data(es@), mode@),
        }
    }
}

/// View of the whole stack.
pub open spec fn frames_data(st: Seq<Frame>) -> Seq<FrameData> {
    st.map(|i: int, f: Frame| f@)
}

pub proof fn lemma_frames_data(st: Seq<Frame>)
    ensures
        frames_data(st).len() == st.len(),
        forall|i: int| 0 <= i < st.len() ==> frames_data(st)[i] == st[i]@,
{
}

pub proof fn lemma_frames_push(st: Seq<Frame>, f: Frame)
    ensures
        frames_data(st.push(f)) =~= frames_data(st).push(f@),
{
    lemma_frames_data(st);
    lemma_frames_data(st.push(f));
}

/// What one executable machine step yields.
pub enum StepResult {
    StepMore,
    StepDone(JsonNode),
    StepFail,
}

/// Deliver a completed value to the enclosing frame, or finish.
fn put_value(stack: &mut Vec<Frame>, v: JsonNode) -> (r: StepResult)
    ensures
        match spec_put(frames_data(old(stack)@), v@) {
            StepData::StepMore(st) => r is StepMore && frames_data(final(stack)@) == st,
            StepData::StepDone(d) => (r matches StepResult::StepDone(n) && n@ == d),
            StepData::StepFail => r is StepFail,
        },
{
    proof {
        lemma_frames_data(stack@);
    }
    let ghost stack0 = frames_data(stack@);
    match stack.pop() {
        None => StepResult::StepDone(v),
        Some(top) => {
            let ghost rest = stack@;
            proof {
                lemma_frames_data(rest);
                assert(stack0.drop_last() =~= frames_data(rest));
                assert(stack0.last() == top@);
            }
            match top {
                Frame::ArrFrame(mut items) => {
                    proof {
                        lemma_nodes_data_push(items@, v);
                    }
                    items.push(v);
                    let fr = Frame::ArrFrame(items);
                    let ghost fsnap = fr;
                    stack.push(fr);
                    proof {
                        lemma_frames_push(rest, fsnap);
                    }
                    StepResult::StepMore
                },
                Frame::ObjFrame(mut es, mode) => match mode {
                    ObjMode::WantValue(k) => {
                        entries_insert(&mut es, k, v);
                        let fr = Frame::ObjFrame(es, ObjMode::WantCommaOrEnd);
                        let ghost fsnap = fr;
                        stack.push(fr);
                        proof {
                            lemma_frames_push(rest, fsnap);
                        }
                        StepResult::StepMore
                    },
                    _ => StepResult::StepFail,
                },
            }
        },
    }
}

/// One machine step: consume `tok` in the state `stack`.
fn step(stack: &mut Vec<Frame>, tok: JsonToken) -> (r: StepResult)
    ensures
        match spec_step(frames_data(old(stack)@), tok@) {
            StepData::StepMore(st) => r is StepMore && frames_data(final(stack)@) == st,
            StepData::StepDone(d) => (r matches StepResult::StepDone(n) && n@ == d),
            StepData::StepFail => r is StepFail,
        },
{
    proof {
        lemma_frames_data(stack@);
    }
    let ghost stack0 = frames_data(stack@);
    if stack.len() == 0 {
        match tok {
            JsonToken::Text(s) => StepResult::StepDone(JsonNode::Text(s)),
            JsonToken::Number(n) => StepResult::StepDone(JsonNode::Number(n)),
            JsonToken::Boolean(b) => StepResult::StepDone(JsonNode::Boolean(b)),
            JsonToken::Null => StepResult::StepDone(JsonNode::Null),
            JsonToken::LeftBrace => {
                let fr = Frame::ObjFrame(Vec::new(), ObjMode::WantKeyOrEnd);
                let ghost fsnap = fr;
                stack.push(fr);
                proof {
                    lemma_frames_push(old(stack)@, fsnap);
                    assert(frames_data(stack@) =~= seq![fsnap@]);
                }
                StepResult::StepMore
            },
            JsonToken::LeftBracket => {
                let fr = Frame::ArrFrame(Vec::new());
                let ghost fsnap = fr;
                stack.push(fr);
                proof {
                    lemma_frames_push(old(stack)@, fsnap);
                    assert(frames_data(stack@) =~= seq![fsnap@]);
                }
                StepResult::StepMore
            },
            _ => StepResult::StepFail,
        }
    } else {
        match stack.pop() {
            None => StepResult::StepFail,
            Some(top) => {
                let ghost rest = stack@;
                proof {
                    lemma_frames_data(rest);
                    assert(stack0.drop_last() =~= frames_data(rest));
                    assert(stack0.last() == top@);
                }
                match top {
                    Frame::ArrFrame(mut items) => match tok {
                        JsonToken::RightBracket => put_value(stack, JsonNode::Array(items)),
                        JsonToken::Comma => {
                            let fr = Frame::ArrFrame(items);
                            let ghost fsnap = fr;
                            stack.push(fr);
                            proof {
                                lemma_frames_push(rest, fsnap);
                                assert(frames_data(stack@) =~= stack0);
                            }
                            StepResult::StepMore
                        },
                        JsonToken::LeftBrace => {
                            let fr = Frame::ArrFrame(items);
                            let ghost fsnap = fr;
                            stack.push(fr);
                            let ghost mid = stack@;
                            let fr2 = Frame::ObjFrame(Vec::new(), ObjMode::WantKeyOrEnd);
                            let ghost fsnap2 = fr2;
                            stack.push(fr2);
                            proof {
                                lemma_frames_push(rest, fsnap);
                                lemma_frames_push(mid, fsnap2);
                                assert(frames_data(mid) =~= stack0);
                            }
                            StepResult::StepMore
                        },
                        JsonToken::LeftBracket => {
                            let fr = Frame::ArrFrame(items);
                            let ghost fsnap = fr;
                            stack.push(fr);
                            let ghost mid = stack@;
                            let fr2 = Frame::ArrFrame(Vec::new());
                            let ghost fsnap2 = fr2;
                            stack.push(fr2);
                            proof {
                                lemma_frames_push(rest, fsnap);
                                lemma_frames_push(mid, fsnap2);
                                assert(frames_data(mid) =~= stack0);
                            }
                            StepResult::StepMore
                        },
                        JsonToken::Colon => StepResult::StepFail,
                        JsonToken::RightBrace => StepResult::StepFail,
                        leaf => {
                            let v = match leaf {
                                JsonToken::Text(s) => JsonNode::Text(s),
                                JsonToken::Number(n) => JsonNode::Number(n),
                                JsonToken::Boolean(b) => JsonNode::Boolean(b),
                                _ => JsonNode::Null,
                            };
                            proof {
                                lemma_nodes_data_push(items@, v);
                            }
                            items.push(v);
                            let fr = Frame::ArrFrame(items);
                            let ghost fsnap = fr;
                            stack.push(fr);
                            proof {
                                lemma_frames_push(rest, fsnap);
                            }
                            StepResult::StepMore
                        },
                    },
                    Frame::ObjFrame(mut es, mode) => match mode {
                        ObjMode::WantKeyOrEnd => match tok {
                            JsonToken::RightBrace => put_value(stack, JsonNode::Object(es)),
                            JsonToken::Text(k) => {
                                let fr = Frame::ObjFrame(es, ObjMode::WantColon(k));
                                let ghost fsnap = fr;
                                stack.push(fr);
                                proof {
                                    lemma_frames_push(rest, fsnap);
                                }
                                StepResult::StepMore
                            },
                            _ => StepResult::StepFail,
                        },
                        ObjMode::WantColon(k) => match tok {
                            JsonToken::Colon => {
                                let fr = Frame::ObjFrame(es, ObjMode::WantValue(k));
                                let ghost fsnap = fr;
                                stack.push(fr);
                                proof {
                                    lemma_frames_push(rest, fsnap);
                                }
                                StepResult::StepMore
                            },
                            _ => StepResult::StepFail,
                        },
                        ObjMode::WantValue(k) => match tok {
                            JsonToken::LeftBrace => {
                                let fr = Frame::ObjFrame(es, ObjMode::WantValue(k));
                                let ghost fsnap = fr;
                                stack.push(fr);
                                let ghost mid = stack@;
                                let fr2 = Frame::ObjFrame(Vec::new(), ObjMode::WantKeyOrEnd);
                                let ghost fsnap2 = fr2;
                                stack.push(fr2);
                                proof {
                                    lemma_frames_push(rest, fsnap);
                                    lemma_frames_push(mid, fsnap2);
                                    assert(frames_data(mid) =~= stack0);
                                }
                                StepResult::StepMore
                            },
                            JsonToken::LeftBracket => {
                                let fr = Frame::ObjFrame(es, ObjMode::WantValue(k));
                                let ghost fsnap = fr;
                                stack.push(fr);
                                let ghost mid = stack@;
                                let fr2 = Frame::ArrFrame(Vec::new());
                                let ghost fsnap2 = fr2;
                                stack.push(fr2);
                                proof {
                                    lemma_frames_push(rest, fsnap);
                                    lemma_frames_push(mid, fsnap2);
                                    assert(frames_data(mid) =~= stack0);
                                }
                                StepResult::StepMore
                            },
                            JsonToken::Colon => StepResult::StepFail,
                            JsonToken::Comma => StepResult::StepFail,
                            JsonToken::RightBrace => StepResult::StepFail,
                            JsonToken::RightBracket => StepResult::StepFail,
                            leaf => {
                                let v = match leaf {
                                    JsonToken::Text(s) => JsonNode::Text(s),
                                    JsonToken::Number(n) => JsonNode::Number(n),
                                    JsonToken::Boolean(b) => JsonNode::Boolean(b),
                                    _ => JsonNode::Null,
                                };
                                entries_insert(&mut es, k, v);
                                let fr = Frame::ObjFrame(es, ObjMode::WantCommaOrEnd);
                                let ghost fsnap = fr;
                                stack.push(fr);
                                proof {
                                    lemma_frames_push(rest, fsnap);
                                }
                                StepResult::StepMore
                            },
                        },
                        ObjMode::WantCommaOrEnd => match tok {
                            JsonToken::Comma => {
                                let fr = Frame::ObjFrame(es, ObjMode::WantKeyOrEnd);
                                let ghost fsnap = fr;
                                stack.push(fr);
                                proof {
                                    lemma_frames_push(rest, fsnap);
                                }
                                StepResult::StepMore
                            },
                            JsonToken::RightBrace => put_value(stack, JsonNode::Object(es)),
                            _ => StepResult::StepFail,
                        },
                    },
                }
            },
        }
    }
}

/// The parser: the token queue and how far it has been consumed.
pub struct JsonParser {
    tokens: Vec<JsonToken>,
    pos: usize,
}

impl JsonParser {
    /// The tokens this parser was given.
    pub closed spec fn spec_toks(&self) -> Seq<TokData> {
        toks_data(self.tokens@)
    }

    /// How many tokens have been consumed.
    pub closed spec fn spec_pos(&self) -> int {
        self.pos as int
    }

    /// Well-formed: the position lies within the queue.
    pub open spec fn wf(&self) -> bool {
        0 <= self.spec_pos() <= self.spec_toks().len()
    }

    pub fn new(tokens: Vec<JsonToken>) -> (r: JsonParser)
        ensures
            r.wf(),
            r.spec_toks() == toks_data(tokens@),
            r.spec_pos() == 0,
    {
        JsonParser { tokens, pos: 0 }
    }

    /// Run the machine from the given initial stack.
    fn run_machine(&mut self, stack: Vec<Frame>, Ghost(f0): Ghost<Seq<FrameData>>) -> (r: Option<
        JsonNode,
    >)
        requires
            old(self).wf(),
            f0 == frames_data(stack@),
        ensures
            final(self).wf(),
            final(self).spec_toks() == old(self).spec_toks(),
            match spec_run(old(self).spec_toks().skip(old(self).spec_pos()), f0) {
                Some(v) => (r matches Some(n) && n@ == v),
                None => r is None,
            },
    {
        let ghost toks0 = self.spec_toks();
        let ghost p0 = self.spec_pos();
        let mut stack = stack;
        loop
            invariant
                self.wf(),
                self.spec_toks() == toks0,
                toks0 == old(self).spec_toks(),
                p0 == old(self).spec_pos(),
                0 <= p0 <= self.spec_pos() <= toks0.len(),
                spec_run(toks0.skip(p0), f0) == spec_run(
                    toks0.skip(self.spec_pos()),
                    frames_data(stack@),
                ),
            decreases toks0.len() - self.spec_pos(),
        {
            if self.pos >= self.tokens.len() {
                proof {
                    assert(toks0.skip(self.spec_pos()).len() == 0);
                }
                return None;
            }
            let ghost p = self.spec_pos();
            let tok = self.tokens[self.pos].duplicate();
            self.pos = self.pos + 1;
            proof {
                assert(toks0.skip(p)[0] == toks0[p]);
                assert(toks0.skip(p).drop_first() =~= toks0.skip(p + 1));
                assert(toks0.skip(p).len() > 0);
            }
            match step(&mut stack, tok) {
                StepResult::StepMore => {},
                StepResult::StepDone(n) => {
                    return Some(n);
                },
                StepResult::StepFail => {
                    return None;
                },
            }
        }
    }

    /// Parse one document value from the front of the queue.
    pub fn parse_value(&mut self) -> (r: Option<JsonNode>)
        requires
            old(self).wf(),
        ensures
            final(self).wf(),
            final(self).spec_toks() == old(self).spec_toks(),
            match spec_run(
                old(self).spec_toks().skip(old(self).spec_pos()),
                Seq::<FrameData>::empty(),
            ) {
                Some(v) => (r matches Some(n) && n@ == v),
                None => r is None,
            },
    {
        let stack: Vec<Frame> = Vec::new();
        proof {
            assert(frames_data(stack@) =~= Seq::<FrameData>::empty());
        }
        self.run_machine(stack, Ghost(Seq::<FrameData>::empty()))
    }

    /// Parse the document: exactly one value.
    pub fn parse(&mut self) -> (r: Option<JsonNode>)
        requires
            old(self).wf(),
        ensures
            final(self).wf(),
            final(self).spec_toks() == old(self).spec_toks(),
            match spec_run(
                old(self).spec_toks().skip(old(self).spec_pos()),
                Seq::<FrameData>::empty(),
            ) {
                Some(v) => (r matches Some(n) && n@ == v),
                None => r is None,
            },
    {
        self.parse_value()
    }

    /// Parse the members of an object whose `{` was already consumed.
    pub fn parse_object(&mut self) -> (r: Option<JsonNode>)
        requires
            old(self).wf(),
        ensures
            final(self).wf(),
            final(self).spec_toks() == old(self).spec_toks(),
            match spec_run(
                old(self).spec_toks().skip(old(self).spec_pos()),
                seq![
                    FrameData::ObjFrame(
                        Seq::<(Seq<char>, JsonData)>::empty(),
                        ObjModeData::WantKeyOrEnd,
                    ),
                ],
            ) {
                Some(v) => (r matches Some(n) && n@ == v),
                None => r is None,
            },
    {
        let mut stack: Vec<Frame> = Vec::new();
        stack.push(Frame::ObjFrame(Vec::new(), ObjMode::WantKeyOrEnd));
        proof {
            assert(frames_data(stack@) =~= seq![
                FrameData::ObjFrame(
                    Seq::<(Seq<char>, JsonData)>::empty(),
                    ObjModeData::WantKeyOrEnd,
                ),
            ]);
        }
        let ghost fg = seq![
            FrameData::ObjFrame(Seq::<(Seq<char>, JsonData)>::empty(), ObjModeData::WantKeyOrEnd),
        ];
        self.run_machine(stack, Ghost(fg))
    }

    /// Parse the elements of an array whose `[` was already consumed.
    pub fn parse_array(&mut self) -> (r: Option<JsonNode>)
        requires
            old(self).wf(),
        ensures
            final(self).wf(),
            final(self).spec_toks() == old(self).spec_toks(),
            match spec_run(
                old(self).spec_toks().skip(old(self).spec_pos()),
                seq![FrameData::ArrFrame(Seq::<JsonData>::empty())],
            ) {
                Some(v) => (r matches Some(n) && n@ == v),
                None => r is None,
            },
    {
        let mut stack: Vec<Frame> = Vec::new();
        stack.push(Frame::ArrFrame(Vec::new()));
        proof {
            assert(frames_data(stack@) =~= seq![FrameData::ArrFrame(Seq::<JsonData>::empty())]);
        }
        let ghost fg = seq![FrameData::ArrFrame(Seq::<JsonData>::empty())];
        self.run_machine(stack, Ghost(fg))
    }
}

/// Parse one document value from a token queue.
pub fn parse_all(tokens: Vec<JsonToken>) -> (r: Option<JsonNode>)
    ensures
        match spec_parse(toks_data(tokens@)) {
            Some(v) => (r matches Some(n) && n@ == v),
            None => r is None,
        },
{
    let ghost td = toks_data(tokens@);
    let mut parser = JsonParser::new(tokens);
    let r = parser.parse();
    proof {
        assert(td.skip(0) =~= td);
    }
    r
}

} // verus!
