//! The element structure of a device model file: each device element with the child
//! elements that start while it is the innermost open device, read from the XML events.
//! Attribute values stay text; what they mean is up to the reader of the tree.

use vstd::prelude::*;

use crate::dmf::xml_reader::{
    attrs_at, event_at, lemma_attrs_at, lemma_find_byte, lemma_find_closer, lemma_name_at,
    lemma_skip_spaces, name_at, skip_spaces, AttrsOutcome, EventOutcome, XmlEvent, XmlEventView,
    XmlReader,
};
use crate::error::Error;
use crate::inf::fields_view;
use crate::text::{chars_eq_str, str_chars};

verus! {

/// An event other than the end of input moves the reader forward.
pub proof fn lemma_event_progress(s: Seq<u8>, p: int)
    requires
        0 <= p <= s.len(),
    ensures
        event_at(s, p) matches EventOutcome::Event(ev, t) ==> (ev is Eof || p < t <= s.len()),
    decreases s.len() - p,
{
    let q = skip_spaces(s, p);
    lemma_skip_spaces(s, p);
    if q < s.len() {
        if s[q] == 0x3cu8 {
            let r = q + 1;
            if r < s.len() {
                if s[r] == 0x3fu8 {
                    lemma_find_byte(s, r, 0x3eu8);
                    let t = crate::dmf::xml_reader::past_gt(s, r);
                    lemma_event_progress(s, t);
                } else if s[r] == 0x21u8 {
                    let r1 = r + 1;
                    lemma_find_closer(s, r1 + 2, 0x2du8, 0x2du8, 0x3eu8);
                    lemma_find_closer(s, r1 + 7, 0x5du8, 0x5du8, 0x3eu8);
                    match crate::dmf::xml_reader::find_closer(s, r1 + 2, 0x2du8, 0x2du8, 0x3eu8) {
                        Some(i) => {
                            lemma_event_progress(s, i + 3);
                        },
                        None => {},
                    }
                    lemma_event_progress(s, r1);
                } else if s[r] == 0x2fu8 {
                    lemma_name_at(s, r + 1);
                    let e = name_at(s, r + 1).1;
                    lemma_find_byte(s, e, 0x3eu8);
                } else {
                    lemma_name_at(s, r);
                    let e = name_at(s, r).1;
                    lemma_attrs_at(s, e);
                    match attrs_at(s, e) {
                        AttrsOutcome::Done(_, a) => {
                            lemma_skip_spaces(s, a);
                        },
                        _ => {},
                    }
                }
            }
        } else {
            lemma_find_byte(s, q, 0x3cu8);
            let e = crate::dmf::xml_reader::find_byte(s, q, 0x3cu8);
            lemma_event_progress(s, e);
        }
    }
}


/// Attributes as values.
pub type AttrsView = Seq<(Seq<char>, Seq<char>)>;

/// An element as values: its local name and attributes.
pub type ElementView = (Seq<char>, AttrsView);

/// A winding as values: attributes and child elements.
pub type LeafView = (AttrsView, Seq<ElementView>);

/// A device as values: attributes, child elements, windings.
pub type NodeView = (AttrsView, Seq<ElementView>, Seq<LeafView>);

/// An element: its local name and attributes.
#[derive(Debug, Clone)]
pub struct Element {
    /// Local name.
    pub name: String,
    /// Attributes in document order.
    pub attrs: Vec<(String, String)>,
}

impl View for Element {
    type V = ElementView;

    open spec fn view(&self) -> ElementView {
        (self.name@, fields_view(self.attrs@))
    }
}

/// The elements as values.
pub open spec fn elements_view(s: Seq<Element>) -> Seq<ElementView> {
    s.map_values(|e: Element| e@)
}

/// A transformer winding: attributes and child elements.
#[derive(Debug, Clone)]
pub struct Leaf {
    /// Attributes.
    pub attrs: Vec<(String, String)>,
    /// Child elements in document order.
    pub children: Vec<Element>,
}

impl View for Leaf {
    type V = LeafView;

    open spec fn view(&self) -> LeafView {
        (fields_view(self.attrs@), elements_view(self.children@))
    }
}

/// The windings as values.
pub open spec fn leaves_view(s: Seq<Leaf>) -> Seq<LeafView> {
    s.map_values(|l: Leaf| l@)
}

/// A device: attributes, child elements and, for a transformer, its windings.
#[derive(Debug, Clone)]
pub struct Node {
    /// Attributes.
    pub attrs: Vec<(String, String)>,
    /// Child elements in document order.
    pub children: Vec<Element>,
    /// Windings (transformers only).
    pub windings: Vec<Leaf>,
}

impl View for Node {
    type V = NodeView;

    open spec fn view(&self) -> NodeView {
        (fields_view(self.attrs@), elements_view(self.children@), leaves_view(self.windings@))
    }
}

/// The devices as values.
pub open spec fn nodes_view(s: Seq<Node>) -> Seq<NodeView> {
    s.map_values(|n: Node| n@)
}

/// Attribute lists as values.
pub open spec fn attr_lists_view(s: Seq<Vec<(String, String)>>) -> Seq<AttrsView> {
    s.map_values(|a: Vec<(String, String)>| fields_view(a@))
}

/// The elements of a device model file: the model's attributes (of its last
/// `ComtradeModel` element), the attributes of every analog and status channel, and the
/// devices with what belongs to them.
#[derive(Debug, Clone)]
pub struct DmfTree {
    /// Attributes of the `ComtradeModel` element.
    pub model: Option<Vec<(String, String)>>,
    /// Attributes of each `AnalogChannel` element.
    pub analogs: Vec<Vec<(String, String)>>,
    /// Attributes of each `StatusChannel` element.
    pub statuses: Vec<Vec<(String, String)>>,
    /// `Bus` elements.
    pub buses: Vec<Node>,
    /// `Line` elements.
    pub lines: Vec<Node>,
    /// `Transformer` elements.
    pub transformers: Vec<Node>,
    /// `Generator` elements.
    pub generators: Vec<Node>,
    /// `Exciter` elements.
    pub exciters: Vec<Node>,
}

/// The tree as values.
pub struct TreeView {
    pub model: Option<AttrsView>,
    pub analogs: Seq<AttrsView>,
    pub statuses: Seq<AttrsView>,
    pub buses: Seq<NodeView>,
    pub lines: Seq<NodeView>,
    pub transformers: Seq<NodeView>,
    pub generators: Seq<NodeView>,
    pub exciters: Seq<NodeView>,
}

impl View for DmfTree {
    type V = TreeView;

    open spec fn view(&self) -> TreeView {
        TreeView {
            model: match self.model {
                Some(a) => Some(fields_view(a@)),
                None => None,
            },
            analogs: attr_lists_view(self.analogs@),
            statuses: attr_lists_view(self.statuses@),
            buses: nodes_view(self.buses@),
            lines: nodes_view(self.lines@),
            transformers: nodes_view(self.transformers@),
            generators: nodes_view(self.generators@),
            exciters: nodes_view(self.exciters@),
        }
    }
}

/// What an open element is: a device, a winding, or an element whose content is skipped.
#[derive(Debug, Clone, Copy, PartialEq, Eq, Structural)]
pub enum Container {
    Bus,
    Line,
    Transformer,
    Winding,
    Generator,
    Exciter,
    Ignored,
}

/// The devices being read, at most one of each kind.
pub struct OpenView {
    pub bus: Option<NodeView>,
    pub line: Option<NodeView>,
    pub transformer: Option<NodeView>,
    pub winding: Option<LeafView>,
    pub generator: Option<NodeView>,
    pub exciter: Option<NodeView>,
}

/// The state of reading: the tree so far, the open devices, the open containers.
pub struct ReadState {
    pub tree: TreeView,
    pub open: OpenView,
    pub stack: Seq<Container>,
}

/// The empty tree.
pub open spec fn empty_tree() -> TreeView {
    TreeView {
        model: None,
        analogs: seq![],
        statuses: seq![],
        buses: seq![],
        lines: seq![],
        transformers: seq![],
        generators: seq![],
        exciters: seq![],
    }
}

/// The state before the first event.
pub open spec fn initial_state() -> ReadState {
    ReadState {
        tree: empty_tree(),
        open: OpenView {
            bus: None,
            line: None,
            transformer: None,
            winding: None,
            generator: None,
            exciter: None,
        },
        stack: seq![],
    }
}

/// A device just started.
pub open spec fn new_node(a: AttrsView) -> NodeView {
    (a, seq![], seq![])
}

/// A device with one more child element.
pub open spec fn node_with_child(n: NodeView, e: ElementView) -> NodeView {
    (n.0, n.1.push(e), n.2)
}

/// A device with one more winding.
pub open spec fn node_with_winding(n: NodeView, w: LeafView) -> NodeView {
    (n.0, n.1, n.2.push(w))
}

/// The names of the elements that belong to the innermost open device.
pub open spec fn is_child_name(n: Seq<char>) -> bool {
    ||| n == "ACVChn"@
    ||| n == "ACC_Bran"@
    ||| n == "RX"@
    ||| n == "CG"@
    ||| n == "MR"@
    ||| n == "PX"@
    ||| n == "DifferentialCurrent"@
    ||| n == "Igap"@
    ||| n == "AnaChn"@
    ||| n == "StaChn"@
}

/// `o` with a child added to the open device of kind `c`, when there is one.
pub open spec fn attach(o: OpenView, c: Container, e: ElementView) -> OpenView {
    match c {
        Container::Bus => OpenView {
            bus: match o.bus {
                Some(b) => Some(node_with_child(b, e)),
                None => None,
            },
            ..o
        },
        Container::Line => OpenView {
            line: match o.line {
                Some(b) => Some(node_with_child(b, e)),
                None => None,
            },
            ..o
        },
        Container::Transformer => OpenView {
            transformer: match o.transformer {
                Some(b) => Some(node_with_child(b, e)),
                None => None,
            },
            ..o
        },
        Container::Winding => OpenView {
            winding: match o.winding {
                Some(w) => Some((w.0, w.1.push(e))),
                None => None,
            },
            ..o
        },
        Container::Generator => OpenView {
            generator: match o.generator {
                Some(b) => Some(node_with_child(b, e)),
                None => None,
            },
            ..o
        },
        Container::Exciter => OpenView {
            exciter: match o.exciter {
                Some(b) => Some(node_with_child(b, e)),
                None => None,
            },
            ..o
        },
        Container::Ignored => o,
    }
}

/// `stack` with `Ignored` pushed unless the element closes itself.
pub open spec fn skip_content(stack: Seq<Container>, empty: bool) -> Seq<Container> {
    if empty {
        stack
    } else {
        stack.push(Container::Ignored)
    }
}

/// What a start tag does to the state.
pub open spec fn start_step(st: ReadState, name: Seq<char>, a: AttrsView, empty: bool) -> ReadState {
    let t = st.tree;
    let o = st.open;
    if name == "ComtradeModel"@ {
        ReadState { tree: TreeView { model: Some(a), ..t }, ..st }
    } else if name == "AnalogChannel"@ {
        ReadState {
            tree: TreeView { analogs: t.analogs.push(a), ..t },
            stack: skip_content(st.stack, empty),
            ..st
        }
    } else if name == "StatusChannel"@ {
        ReadState {
            tree: TreeView { statuses: t.statuses.push(a), ..t },
            stack: skip_content(st.stack, empty),
            ..st
        }
    } else if name == "Bus"@ {
        if empty {
            ReadState { tree: TreeView { buses: t.buses.push(new_node(a)), ..t }, ..st }
        } else {
            ReadState {
                open: OpenView { bus: Some(new_node(a)), ..o },
                stack: st.stack.push(Container::Bus),
                ..st
            }
        }
    } else if name == "Line"@ {
        if empty {
            ReadState { tree: TreeView { lines: t.lines.push(new_node(a)), ..t }, ..st }
        } else {
            ReadState {
                open: OpenView { line: Some(new_node(a)), ..o },
                stack: st.stack.push(Container::Line),
                ..st
            }
        }
    } else if name == "Transformer"@ {
        if empty {
            ReadState {
                tree: TreeView { transformers: t.transformers.push(new_node(a)), ..t },
                ..st
            }
        } else {
            ReadState {
                open: OpenView { transformer: Some(new_node(a)), ..o },
                stack: st.stack.push(Container::Transformer),
                ..st
            }
        }
    } else if name == "TransformerWinding"@ {
        if empty {
            ReadState {
                open: OpenView {
                    transformer: match o.transformer {
                        Some(tr) => Some(node_with_winding(tr, (a, seq![]))),
                        None => None,
                    },
                    ..o
                },
                ..st
            }
        } else {
            ReadState {
                open: OpenView { winding: Some((a, seq![])), ..o },
                stack: st.stack.push(Container::Winding),
                ..st
            }
        }
    } else if name == "Generator"@ {
        if empty {
            ReadState { tree: TreeView { generators: t.generators.push(new_node(a)), ..t }, ..st }
        } else {
            ReadState {
                open: OpenView { generator: Some(new_node(a)), ..o },
                stack: st.stack.push(Container::Generator),
                ..st
            }
        }
    } else if name == "Exciter"@ {
        if empty {
            ReadState { tree: TreeView { exciters: t.exciters.push(new_node(a)), ..t }, ..st }
        } else {
            ReadState {
                open: OpenView { exciter: Some(new_node(a)), ..o },
                stack: st.stack.push(Container::Exciter),
                ..st
            }
        }
    } else if is_child_name(name) {
        if st.stack.len() > 0 {
            ReadState { open: attach(o, st.stack.last(), (name, a)), ..st }
        } else {
            st
        }
    } else {
        ReadState { stack: skip_content(st.stack, empty), ..st }
    }
}

/// A channel-group or parameter element (`ACVChn`, `ACC_Bran`, `RX`, `CG`, `MR`, `PX`,
/// `DifferentialCurrent`, `Igap`, `AnaChn`, `StaChn`) that starts inside an open bus,
/// line, transformer, winding, generator or exciter becomes the last child of that
/// device, with its attributes; nothing else changes.
pub proof fn lemma_child_attached(st: ReadState, name: Seq<char>, attrs: AttrsView, empty: bool)
    requires
        name == "ACVChn"@ || name == "ACC_Bran"@ || name == "RX"@ || name == "CG"@ || name == "MR"@ || name == "PX"@ || name == "DifferentialCurrent"@ || name == "Igap"@ || name == "AnaChn"@ || name == "StaChn"@,
    ensures
        ({
            let r = step(st, XmlEventView::Start { name, attrs, empty });
            let e = (name, attrs);
            &&& r.tree == st.tree
            &&& r.stack == st.stack
            &&& st.stack.len() > 0 && st.stack.last() == Container::Bus ==> (st.open.bus matches Some(
                n,
            ) ==> r.open.bus == Some((n.0, n.1.push(e), n.2)))
            &&& st.stack.len() > 0 && st.stack.last() == Container::Line ==> (st.open.line matches Some(
                n,
            ) ==> r.open.line == Some((n.0, n.1.push(e), n.2)))
            &&& st.stack.len() > 0 && st.stack.last() == Container::Transformer ==> (
            st.open.transformer matches Some(n) ==> r.open.transformer == Some(
                (n.0, n.1.push(e), n.2),
            ))
            &&& st.stack.len() > 0 && st.stack.last() == Container::Winding ==> (
            st.open.winding matches Some(w) ==> r.open.winding == Some((w.0, w.1.push(e))))
            &&& st.stack.len() > 0 && st.stack.last() == Container::Generator ==> (
            st.open.generator matches Some(n) ==> r.open.generator == Some(
                (n.0, n.1.push(e), n.2),
            ))
            &&& st.stack.len() > 0 && st.stack.last() == Container::Exciter ==> (
            st.open.exciter matches Some(n) ==> r.open.exciter == Some((n.0, n.1.push(e), n.2)))
        }),
{
    reveal_strlit("ACVChn");
    reveal_strlit("ACC_Bran");
    reveal_strlit("RX");
    reveal_strlit("CG");
    reveal_strlit("MR");
    reveal_strlit("PX");
    reveal_strlit("DifferentialCurrent");
    reveal_strlit("Igap");
    reveal_strlit("AnaChn");
    reveal_strlit("StaChn");
    reveal_strlit("ComtradeModel");
    reveal_strlit("AnalogChannel");
    reveal_strlit("StatusChannel");
    reveal_strlit("Bus");
    reveal_strlit("Line");
    reveal_strlit("Transformer");
    reveal_strlit("TransformerWinding");
    reveal_strlit("Generator");
    reveal_strlit("Exciter");
    assert(is_child_name(name));
    if name == "ACVChn"@ {
        assert("ACVChn"@.len() != "ComtradeModel"@.len());
        assert("ACVChn"@.len() != "AnalogChannel"@.len());
        assert("ACVChn"@.len() != "StatusChannel"@.len());
        assert("ACVChn"@.len() != "Bus"@.len());
        assert("ACVChn"@.len() != "Line"@.len());
        assert("ACVChn"@.len() != "Transformer"@.len());
        assert("ACVChn"@.len() != "TransformerWinding"@.len());
        assert("ACVChn"@.len() != "Generator"@.len());
        assert("ACVChn"@.len() != "Exciter"@.len());
    } else if name == "ACC_Bran"@ {
        assert("ACC_Bran"@.len() != "ComtradeModel"@.len());
        assert("ACC_Bran"@.len() != "AnalogChannel"@.len());
        assert("ACC_Bran"@.len() != "StatusChannel"@.len());
        assert("ACC_Bran"@.len() != "Bus"@.len());
        assert("ACC_Bran"@.len() != "Line"@.len());
        assert("ACC_Bran"@.len() != "Transformer"@.len());
        assert("ACC_Bran"@.len() != "TransformerWinding"@.len());
        assert("ACC_Bran"@.len() != "Generator"@.len());
        assert("ACC_Bran"@.len() != "Exciter"@.len());
    } else if name == "RX"@ {
        assert("RX"@.len() != "ComtradeModel"@.len());
        assert("RX"@.len() != "AnalogChannel"@.len());
        assert("RX"@.len() != "StatusChannel"@.len());
        assert("RX"@.len() != "Bus"@.len());
        assert("RX"@.len() != "Line"@.len());
        assert("RX"@.len() != "Transformer"@.len());
        assert("RX"@.len() != "TransformerWinding"@.len());
        assert("RX"@.len() != "Generator"@.len());
        assert("RX"@.len() != "Exciter"@.len());
    } else if name == "CG"@ {
        assert("CG"@.len() != "ComtradeModel"@.len());
        assert("CG"@.len() != "AnalogChannel"@.len());
        assert("CG"@.len() != "StatusChannel"@.len());
        assert("CG"@.len() != "Bus"@.len());
        assert("CG"@.len() != "Line"@.len());
        assert("CG"@.len() != "Transformer"@.len());
        assert("CG"@.len() != "TransformerWinding"@.len());
        assert("CG"@.len() != "Generator"@.len());
        assert("CG"@.len() != "Exciter"@.len());
    } else if name == "MR"@ {
        assert("MR"@.len() != "ComtradeModel"@.len());
        assert("MR"@.len() != "AnalogChannel"@.len());
        assert("MR"@.len() != "StatusChannel"@.len());
        assert("MR"@.len() != "Bus"@.len());
        assert("MR"@.len() != "Line"@.len());
        assert("MR"@.len() != "Transformer"@.len());
        assert("MR"@.len() != "TransformerWinding"@.len());
        assert("MR"@.len() != "Generator"@.len());
        assert("MR"@.len() != "Exciter"@.len());
    } else if name == "PX"@ {
        assert("PX"@.len() != "ComtradeModel"@.len());
        assert("PX"@.len() != "AnalogChannel"@.len());
        assert("PX"@.len() != "StatusChannel"@.len());
        assert("PX"@.len() != "Bus"@.len());
        assert("PX"@.len() != "Line"@.len());
        assert("PX"@.len() != "Transformer"@.len());
        assert("PX"@.len() != "TransformerWinding"@.len());
        assert("PX"@.len() != "Generator"@.len());
        assert("PX"@.len() != "Exciter"@.len());
    } else if name == "DifferentialCurrent"@ {
        assert("DifferentialCurrent"@.len() != "ComtradeModel"@.len());
        assert("DifferentialCurrent"@.len() != "AnalogChannel"@.len());
        assert("DifferentialCurrent"@.len() != "StatusChannel"@.len());
        assert("DifferentialCurrent"@.len() != "Bus"@.len());
        assert("DifferentialCurrent"@.len() != "Line"@.len());
        assert("DifferentialCurrent"@.len() != "Transformer"@.len());
        assert("DifferentialCurrent"@.len() != "TransformerWinding"@.len());
        assert("DifferentialCurrent"@.len() != "Generator"@.len());
        assert("DifferentialCurrent"@.len() != "Exciter"@.len());
    } else if name == "Igap"@ {
        assert("Igap"@.len() != "ComtradeModel"@.len());
        assert("Igap"@.len() != "AnalogChannel"@.len());
        assert("Igap"@.len() != "StatusChannel"@.len());
        assert("Igap"@.len() != "Bus"@.len());
        assert("Igap"@[0] != "Line"@[0]);
        assert("Igap"@.len() != "Transformer"@.len());
        assert("Igap"@.len() != "TransformerWinding"@.len());
        assert("Igap"@.len() != "Generator"@.len());
        assert("Igap"@.len() != "Exciter"@.len());
    } else if name == "AnaChn"@ {
        assert("AnaChn"@.len() != "ComtradeModel"@.len());
        assert("AnaChn"@.len() != "AnalogChannel"@.len());
        assert("AnaChn"@.len() != "StatusChannel"@.len());
        assert("AnaChn"@.len() != "Bus"@.len());
        assert("AnaChn"@.len() != "Line"@.len());
        assert("AnaChn"@.len() != "Transformer"@.len());
        assert("AnaChn"@.len() != "TransformerWinding"@.len());
        assert("AnaChn"@.len() != "Generator"@.len());
        assert("AnaChn"@.len() != "Exciter"@.len());
    } else if name == "StaChn"@ {
        assert("StaChn"@.len() != "ComtradeModel"@.len());
        assert("StaChn"@.len() != "AnalogChannel"@.len());
        assert("StaChn"@.len() != "StatusChannel"@.len());
        assert("StaChn"@.len() != "Bus"@.len());
        assert("StaChn"@.len() != "Line"@.len());
        assert("StaChn"@.len() != "Transformer"@.len());
        assert("StaChn"@.len() != "TransformerWinding"@.len());
        assert("StaChn"@.len() != "Generator"@.len());
        assert("StaChn"@.len() != "Exciter"@.len());
    }
}

/// What an end tag does to the state: a device of that name is closed and added to the
/// tree (a winding to the open transformer), and the innermost container is dropped.
pub open spec fn end_step(st: ReadState, name: Seq<char>) -> ReadState {
    let t = st.tree;
    let o = st.open;
    let closed = if name == "Bus"@ {
        match o.bus {
            Some(b) => ReadState {
                tree: TreeView { buses: t.buses.push(b), ..t },
                open: OpenView { bus: None, ..o },
                ..st
            },
            None => st,
        }
    } else if name == "Line"@ {
        match o.line {
            Some(b) => ReadState {
                tree: TreeView { lines: t.lines.push(b), ..t },
                open: OpenView { line: None, ..o },
                ..st
            },
            None => st,
        }
    } else if name == "Transformer"@ {
        match o.transformer {
            Some(b) => ReadState {
                tree: TreeView { transformers: t.transformers.push(b), ..t },
                open: OpenView { transformer: None, ..o },
                ..st
            },
            None => st,
        }
    } else if name == "TransformerWinding"@ {
        match o.winding {
            Some(w) => ReadState {
                open: OpenView {
                    winding: None,
                    transformer: match o.transformer {
                        Some(tr) => Some(node_with_winding(tr, w)),
                        None => None,
                    },
                    ..o
                },
                ..st
            },
            None => st,
        }
    } else if name == "Generator"@ {
        match o.generator {
            Some(b) => ReadState {
                tree: TreeView { generators: t.generators.push(b), ..t },
                open: OpenView { generator: None, ..o },
                ..st
            },
            None => st,
        }
    } else if name == "Exciter"@ {
        match o.exciter {
            Some(b) => ReadState {
                tree: TreeView { exciters: t.exciters.push(b), ..t },
                open: OpenView { exciter: None, ..o },
                ..st
            },
            None => st,
        }
    } else {
        st
    };
    ReadState {
        stack: if closed.stack.len() > 0 {
            closed.stack.drop_last()
        } else {
            closed.stack
        },
        ..closed
    }
}

/// A bus, line, transformer, generator or exciter element is added to the tree among the
/// devices of its kind, with its attributes: at once when it closes itself, at its end
/// tag when it has content (here none); the open containers are as before.
pub proof fn lemma_device_read(st: ReadState, a: AttrsView)
    ensures
        ({
            let s1 = step(st, XmlEventView::Start { name: "Bus"@, attrs: a, empty: false });
            let s2 = step(s1, XmlEventView::End { name: "Bus"@ });
            &&& s2.tree == TreeView { buses: st.tree.buses.push((a, seq![], seq![])), ..st.tree }
            &&& s2.stack == st.stack
            &&& step(st, XmlEventView::Start { name: "Bus"@, attrs: a, empty: true }).tree
                == TreeView { buses: st.tree.buses.push((a, seq![], seq![])), ..st.tree }
        }),
        ({
            let s1 = step(st, XmlEventView::Start { name: "Line"@, attrs: a, empty: false });
            let s2 = step(s1, XmlEventView::End { name: "Line"@ });
            &&& s2.tree == TreeView { lines: st.tree.lines.push((a, seq![], seq![])), ..st.tree }
            &&& s2.stack == st.stack
            &&& step(st, XmlEventView::Start { name: "Line"@, attrs: a, empty: true }).tree
                == TreeView { lines: st.tree.lines.push((a, seq![], seq![])), ..st.tree }
        }),
        ({
            let s1 = step(st, XmlEventView::Start { name: "Transformer"@, attrs: a, empty: false });
            let s2 = step(s1, XmlEventView::End { name: "Transformer"@ });
            &&& s2.tree == TreeView { transformers: st.tree.transformers.push((a, seq![], seq![])), ..st.tree }
            &&& s2.stack == st.stack
            &&& step(st, XmlEventView::Start { name: "Transformer"@, attrs: a, empty: true }).tree
                == TreeView { transformers: st.tree.transformers.push((a, seq![], seq![])), ..st.tree }
        }),
        ({
            let s1 = step(st, XmlEventView::Start { name: "Generator"@, attrs: a, empty: false });
            let s2 = step(s1, XmlEventView::End { name: "Generator"@ });
            &&& s2.tree == TreeView { generators: st.tree.generators.push((a, seq![], seq![])), ..st.tree }
            &&& s2.stack == st.stack
            &&& step(st, XmlEventView::Start { name: "Generator"@, attrs: a, empty: true }).tree
                == TreeView { generators: st.tree.generators.push((a, seq![], seq![])), ..st.tree }
        }),
        ({
            let s1 = step(st, XmlEventView::Start { name: "Exciter"@, attrs: a, empty: false });
            let s2 = step(s1, XmlEventView::End { name: "Exciter"@ });
            &&& s2.tree == TreeView { exciters: st.tree.exciters.push((a, seq![], seq![])), ..st.tree }
            &&& s2.stack == st.stack
            &&& step(st, XmlEventView::Start { name: "Exciter"@, attrs: a, empty: true }).tree
                == TreeView { exciters: st.tree.exciters.push((a, seq![], seq![])), ..st.tree }
        }),
{
    reveal_strlit("ComtradeModel");
    reveal_strlit("AnalogChannel");
    reveal_strlit("StatusChannel");
    reveal_strlit("Bus");
    reveal_strlit("Line");
    reveal_strlit("Transformer");
    reveal_strlit("TransformerWinding");
    reveal_strlit("Generator");
    reveal_strlit("Exciter");
    assert("Bus"@.len() != "ComtradeModel"@.len());
    assert("Bus"@.len() != "AnalogChannel"@.len());
    assert("Bus"@.len() != "StatusChannel"@.len());
    assert("Bus"@.len() != "Line"@.len());
    assert("Bus"@.len() != "Transformer"@.len());
    assert("Bus"@.len() != "TransformerWinding"@.len());
    assert("Bus"@.len() != "Generator"@.len());
    assert("Bus"@.len() != "Exciter"@.len());
    assert("Line"@.len() != "ComtradeModel"@.len());
    assert("Line"@.len() != "AnalogChannel"@.len());
    assert("Line"@.len() != "StatusChannel"@.len());
    assert("Line"@.len() != "Bus"@.len());
    assert("Line"@.len() != "Transformer"@.len());
    assert("Line"@.len() != "TransformerWinding"@.len());
    assert("Line"@.len() != "Generator"@.len());
    assert("Line"@.len() != "Exciter"@.len());
    assert("Transformer"@.len() != "ComtradeModel"@.len());
    assert("Transformer"@.len() != "AnalogChannel"@.len());
    assert("Transformer"@.len() != "StatusChannel"@.len());
    assert("Transformer"@.len() != "Bus"@.len());
    assert("Transformer"@.len() != "Line"@.len());
    assert("Transformer"@.len() != "TransformerWinding"@.len());
    assert("Transformer"@.len() != "Generator"@.len());
    assert("Transformer"@.len() != "Exciter"@.len());
    assert("Generator"@.len() != "ComtradeModel"@.len());
    assert("Generator"@.len() != "AnalogChannel"@.len());
    assert("Generator"@.len() != "StatusChannel"@.len());
    assert("Generator"@.len() != "Bus"@.len());
    assert("Generator"@.len() != "Line"@.len());
    assert("Generator"@.len() != "Transformer"@.len());
    assert("Generator"@.len() != "TransformerWinding"@.len());
    assert("Generator"@.len() != "Exciter"@.len());
    assert("Exciter"@.len() != "ComtradeModel"@.len());
    assert("Exciter"@.len() != "AnalogChannel"@.len());
    assert("Exciter"@.len() != "StatusChannel"@.len());
    assert("Exciter"@.len() != "Bus"@.len());
    assert("Exciter"@.len() != "Line"@.len());
    assert("Exciter"@.len() != "Transformer"@.len());
    assert("Exciter"@.len() != "TransformerWinding"@.len());
    assert("Exciter"@.len() != "Generator"@.len());
}


/// What an event does to the state.
pub open spec fn step(st: ReadState, ev: XmlEventView) -> ReadState {
    match ev {
        XmlEventView::Start { name, attrs, empty } => start_step(st, name, attrs, empty),
        XmlEventView::End { name } => end_step(st, name),
        _ => st,
    }
}

/// The tree read from position `p` on in state `st`: events until the end of the input,
/// or the first error.
pub open spec fn run(s: Seq<u8>, p: int, st: ReadState) -> Result<TreeView, Error>
    decreases s.len() - p,
{
    match event_at(s, p) {
        EventOutcome::Failed(x, why) => Err(Error::Xml { position: x as usize, reason: why }),
        EventOutcome::Event(ev, t) => if ev is Eof || !(p < t <= s.len()) {
            Ok(st.tree)
        } else {
            run(s, t, step(st, ev))
        },
    }
}

/// The tree of a device model file.
pub open spec fn tree_of(s: Seq<u8>) -> Result<TreeView, Error> {
    run(s, 0, initial_state())
}


/// The devices being read.
struct Open {
    bus: Option<Node>,
    line: Option<Node>,
    transformer: Option<Node>,
    winding: Option<Leaf>,
    generator: Option<Node>,
    exciter: Option<Node>,
}

spec fn node_opt(o: Option<Node>) -> Option<NodeView> {
    match o {
        Some(n) => Some(n@),
        None => None,
    }
}

impl View for Open {
    type V = OpenView;

    closed spec fn view(&self) -> OpenView {
        OpenView {
            bus: node_opt(self.bus),
            line: node_opt(self.line),
            transformer: node_opt(self.transformer),
            winding: match self.winding {
                Some(w) => Some(w@),
                None => None,
            },
            generator: node_opt(self.generator),
            exciter: node_opt(self.exciter),
        }
    }
}

spec fn state_of(tree: DmfTree, open: Open, stack: Seq<Container>) -> ReadState {
    ReadState { tree: tree@, open: open@, stack }
}

fn node_new(attrs: Vec<(String, String)>) -> (r: Node)
    ensures
        r@ == new_node(fields_view(attrs@)),
{
    let r = Node { attrs, children: Vec::new(), windings: Vec::new() };
    assert(elements_view(r.children@) =~= Seq::<ElementView>::empty());
    assert(leaves_view(r.windings@) =~= Seq::<LeafView>::empty());
    r
}

fn leaf_new(attrs: Vec<(String, String)>) -> (r: Leaf)
    ensures
        r@ == (fields_view(attrs@), Seq::<ElementView>::empty()),
{
    let r = Leaf { attrs, children: Vec::new() };
    assert(elements_view(r.children@) =~= Seq::<ElementView>::empty());
    r
}

fn push_element(v: &mut Vec<Element>, e: Element)
    ensures
        elements_view(final(v)@) == elements_view(old(v)@).push(e@),
{
    let ghost before = v@;
    v.push(e);
    assert(elements_view(v@) =~= elements_view(before).push(e@));
}

fn push_child(n: &mut Node, e: Element)
    ensures
        final(n)@ == node_with_child(old(n)@, e@),
{
    push_element(&mut n.children, e);
}

fn push_leaf_child(l: &mut Leaf, e: Element)
    ensures
        final(l)@ == (old(l)@.0, old(l)@.1.push(e@)),
{
    push_element(&mut l.children, e);
}

fn push_winding(n: &mut Node, w: Leaf)
    ensures
        final(n)@ == node_with_winding(old(n)@, w@),
{
    let ghost before = n.windings@;
    n.windings.push(w);
    assert(leaves_view(n.windings@) =~= leaves_view(before).push(w@));
}

fn push_node(v: &mut Vec<Node>, n: Node)
    ensures
        nodes_view(final(v)@) == nodes_view(old(v)@).push(n@),
{
    let ghost before = v@;
    v.push(n);
    assert(nodes_view(v@) =~= nodes_view(before).push(n@));
}

fn push_attrs(v: &mut Vec<Vec<(String, String)>>, a: Vec<(String, String)>)
    ensures
        attr_lists_view(final(v)@) == attr_lists_view(old(v)@).push(fields_view(a@)),
{
    let ghost before = v@;
    let ghost av = fields_view(a@);
    v.push(a);
    assert(attr_lists_view(v@) =~= attr_lists_view(before).push(av));
}

fn is_child(n: &[char]) -> (r: bool)
    ensures
        r == is_child_name(n@),
{
    chars_eq_str(n, "ACVChn") || chars_eq_str(n, "ACC_Bran") || chars_eq_str(n, "RX")
        || chars_eq_str(n, "CG") || chars_eq_str(n, "MR") || chars_eq_str(n, "PX")
        || chars_eq_str(n, "DifferentialCurrent") || chars_eq_str(n, "Igap") || chars_eq_str(
        n,
        "AnaChn",
    ) || chars_eq_str(n, "StaChn")
}

fn skip_content_exec(stack: &mut Vec<Container>, empty: bool)
    ensures
        final(stack)@ == skip_content(old(stack)@, empty),
{
    if !empty {
        stack.push(Container::Ignored);
    }
}

fn attach_exec(open: &mut Open, c: Container, e: Element)
    ensures
        final(open)@ == attach(old(open)@, c, e@),
{
    match c {
        Container::Bus => {
            if let Some(mut b) = open.bus.take() {
                push_child(&mut b, e);
                open.bus = Some(b);
            }
        },
        Container::Line => {
            if let Some(mut b) = open.line.take() {
                push_child(&mut b, e);
                open.line = Some(b);
            }
        },
        Container::Transformer => {
            if let Some(mut b) = open.transformer.take() {
                push_child(&mut b, e);
                open.transformer = Some(b);
            }
        },
        Container::Winding => {
            if let Some(mut w) = open.winding.take() {
                push_leaf_child(&mut w, e);
                open.winding = Some(w);
            }
        },
        Container::Generator => {
            if let Some(mut b) = open.generator.take() {
                push_child(&mut b, e);
                open.generator = Some(b);
            }
        },
        Container::Exciter => {
            if let Some(mut b) = open.exciter.take() {
                push_child(&mut b, e);
                open.exciter = Some(b);
            }
        },
        Container::Ignored => {},
    }
}

/// Opens a device, or adds it at once when the element closes itself.
fn start_device(
    list: &mut Vec<Node>,
    slot: &mut Option<Node>,
    stack: &mut Vec<Container>,
    c: Container,
    attrs: Vec<(String, String)>,
    empty: bool,
)
    ensures
        empty ==> nodes_view(final(list)@) == nodes_view(old(list)@).push(new_node(fields_view(attrs@)))
            && node_opt(*final(slot)) == node_opt(*old(slot)) && final(stack)@ == old(stack)@,
        !empty ==> nodes_view(final(list)@) == nodes_view(old(list)@) && node_opt(*final(slot))
            == Some(new_node(fields_view(attrs@))) && final(stack)@ == old(stack)@.push(c),
{
    let n = node_new(attrs);
    if empty {
        push_node(list, n);
    } else {
        *slot = Some(n);
        stack.push(c);
    }
}

/// Closes a device: adds the open one, if any, to the list.
fn end_device(list: &mut Vec<Node>, slot: &mut Option<Node>)
    ensures
        match node_opt(*old(slot)) {
            Some(b) => nodes_view(final(list)@) == nodes_view(old(list)@).push(b) && (*final(slot)) is None,
            None => nodes_view(final(list)@) == nodes_view(old(list)@) && (*final(slot)) is None,
        },
{
    if let Some(b) = slot.take() {
        push_node(list, b);
    }
}

fn start_exec(
    tree: &mut DmfTree,
    open: &mut Open,
    stack: &mut Vec<Container>,
    name: String,
    attrs: Vec<(String, String)>,
    empty: bool,
)
    ensures
        state_of(*final(tree), *final(open), final(stack)@) == start_step(
            state_of(*old(tree), *old(open), old(stack)@),
            name@,
            fields_view(attrs@),
            empty,
        ),
{
    let n = str_chars(name.as_str());
    if chars_eq_str(&n, "ComtradeModel") {
        tree.model = Some(attrs);
    } else if chars_eq_str(&n, "AnalogChannel") {
        push_attrs(&mut tree.analogs, attrs);
        skip_content_exec(stack, empty);
    } else if chars_eq_str(&n, "StatusChannel") {
        push_attrs(&mut tree.statuses, attrs);
        skip_content_exec(stack, empty);
    } else if chars_eq_str(&n, "Bus") {
        start_device(&mut tree.buses, &mut open.bus, stack, Container::Bus, attrs, empty);
    } else if chars_eq_str(&n, "Line") {
        start_device(&mut tree.lines, &mut open.line, stack, Container::Line, attrs, empty);
    } else if chars_eq_str(&n, "Transformer") {
        start_device(
            &mut tree.transformers,
            &mut open.transformer,
            stack,
            Container::Transformer,
            attrs,
            empty,
        );
    } else if chars_eq_str(&n, "TransformerWinding") {
        let w = leaf_new(attrs);
        if empty {
            if let Some(mut t) = open.transformer.take() {
                push_winding(&mut t, w);
                open.transformer = Some(t);
            }
        } else {
            open.winding = Some(w);
            stack.push(Container::Winding);
        }
    } else if chars_eq_str(&n, "Generator") {
        start_device(
            &mut tree.generators,
            &mut open.generator,
            stack,
            Container::Generator,
            attrs,
            empty,
        );
    } else if chars_eq_str(&n, "Exciter") {
        start_device(&mut tree.exciters, &mut open.exciter, stack, Container::Exciter, attrs, empty);
    } else if is_child(&n) {
        if stack.len() > 0 {
            let c = stack[stack.len() - 1];
            attach_exec(open, c, Element { name, attrs });
        }
    } else {
        skip_content_exec(stack, empty);
    }
}

fn end_exec(tree: &mut DmfTree, open: &mut Open, stack: &mut Vec<Container>, name: String)
    ensures
        state_of(*final(tree), *final(open), final(stack)@) == end_step(
            state_of(*old(tree), *old(open), old(stack)@),
            name@,
        ),
{
    let n = str_chars(name.as_str());
    if chars_eq_str(&n, "Bus") {
        end_device(&mut tree.buses, &mut open.bus);
    } else if chars_eq_str(&n, "Line") {
        end_device(&mut tree.lines, &mut open.line);
    } else if chars_eq_str(&n, "Transformer") {
        end_device(&mut tree.transformers, &mut open.transformer);
    } else if chars_eq_str(&n, "TransformerWinding") {
        if let Some(w) = open.winding.take() {
            if let Some(mut t) = open.transformer.take() {
                push_winding(&mut t, w);
                open.transformer = Some(t);
            }
        }
    } else if chars_eq_str(&n, "Generator") {
        end_device(&mut tree.generators, &mut open.generator);
    } else if chars_eq_str(&n, "Exciter") {
        end_device(&mut tree.exciters, &mut open.exciter);
    }
    if stack.len() > 0 {
        stack.pop();
    }
}

fn apply(tree: &mut DmfTree, open: &mut Open, stack: &mut Vec<Container>, ev: XmlEvent)
    ensures
        state_of(*final(tree), *final(open), final(stack)@) == step(
            state_of(*old(tree), *old(open), old(stack)@),
            ev@,
        ),
{
    match ev {
        XmlEvent::Start { name, attrs, empty } => start_exec(tree, open, stack, name, attrs, empty),
        XmlEvent::End { name } => end_exec(tree, open, stack, name),
        _ => {},
    }
}

/// Reads the element structure of a device model file (see `tree_of`): the events in
/// order until the end of the input, each changing the state as `step` says; the first
/// malformed event is the error.
pub fn read_tree(bytes: &[u8]) -> (r: Result<DmfTree, Error>)
    ensures
        match r {
            Ok(t) => tree_of(bytes@) == Ok::<TreeView, Error>(t@),
            Err(e) => tree_of(bytes@) == Err::<TreeView, Error>(e),
        },
{
    let mut reader = XmlReader::new(bytes);
    let mut tree = DmfTree {
        model: None,
        analogs: Vec::new(),
        statuses: Vec::new(),
        buses: Vec::new(),
        lines: Vec::new(),
        transformers: Vec::new(),
        generators: Vec::new(),
        exciters: Vec::new(),
    };
    let mut open = Open {
        bus: None,
        line: None,
        transformer: None,
        winding: None,
        generator: None,
        exciter: None,
    };
    let mut stack: Vec<Container> = Vec::new();
    assert(state_of(tree, open, stack@) == initial_state()) by {
        assert(tree@.analogs =~= Seq::<AttrsView>::empty());
        assert(tree@.statuses =~= Seq::<AttrsView>::empty());
        assert(tree@.buses =~= Seq::<NodeView>::empty());
        assert(tree@.lines =~= Seq::<NodeView>::empty());
        assert(tree@.transformers =~= Seq::<NodeView>::empty());
        assert(tree@.generators =~= Seq::<NodeView>::empty());
        assert(tree@.exciters =~= Seq::<NodeView>::empty());
        assert(stack@ =~= Seq::<Container>::empty());
    }
    loop
        invariant
            reader.bytes() == bytes@,
            0 <= reader.position() <= bytes@.len(),
            run(bytes@, reader.position(), state_of(tree, open, stack@)) == tree_of(bytes@),
        decreases bytes@.len() - reader.position(),
    {
        let ghost p = reader.position();
        let ghost st = state_of(tree, open, stack@);
        proof {
            lemma_event_progress(bytes@, p);
        }
        match reader.next_event() {
            Err(e) => {
                return Err(e);
            },
            Ok(ev) => {
                if let XmlEvent::Eof = ev {
                    return Ok(tree);
                }
                apply(&mut tree, &mut open, &mut stack, ev);
            },
        }
    }
}

} // verus!
