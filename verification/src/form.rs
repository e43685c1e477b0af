//! The interactive scan form: a target field, a ports field and a choice of
//! export format, edited key by key until the scan is started or abandoned.

use vstd::prelude::*;
use vstd::string::*;
use crate::text::{pop_char, push_char};

verus! {

broadcast use vstd::string::group_string_axioms;

/// Whether a key went down, repeats while held, or came up.
#[derive(Debug, Clone, Copy, PartialEq, Eq, Structural)]
pub enum KeyPhase {
    Press,
    Repeat,
    Release,
}

/// The keys the form tells apart.
#[derive(Debug, Clone, Copy, PartialEq, Eq, Structural)]
pub enum FormKey {
    Esc,
    Tab,
    Up,
    Down,
    Enter,
    Backspace,
    Char(char),
    Other,
}

/// What the terminal reported.
#[derive(Debug, Clone, Copy, PartialEq, Eq, Structural)]
pub enum FormEvent {
    Key(FormKey, KeyPhase),
    /// Mouse, resize and other events.
    Other,
}

/// What the form asks for after an event.
#[derive(Debug, Clone, Copy, PartialEq, Eq, Structural)]
pub enum FormStep {
    /// Keep editing.
    Continue,
    /// Start the scan with what the form holds.
    Start,
    /// Leave without scanning.
    Abort,
}

/// The contents of the form.
pub struct FormModel {
    pub target: Seq<char>,
    pub ports: Seq<char>,
    /// 0, 1, 2 for `txt`, `html`, `zip`.
    pub selected_format: nat,
    /// 0 while the target is edited, 1 while the ports are.
    pub input_mode: nat,
}

/// Timeout of each connection attempt of a scan started from the form, in milliseconds.
pub const FORM_TIMEOUT_MS: u64 = 300;

/// How many connection attempts of a scan started from the form run at once.
pub const FORM_CONCURRENCY: usize = 200;

/// The number of export formats offered.
pub const FORMAT_COUNT: usize = 3;

/// The names of the export formats, in the order the form lists them.
pub open spec fn format_names() -> Seq<Seq<char>> {
    seq!["txt"@, "html"@, "zip"@]
}

/// The form when it opens.
pub open spec fn initial_form() -> FormModel {
    FormModel {
        target: "google.com"@,
        ports: "80,443"@,
        selected_format: 0,
        input_mode: 0,
    }
}

/// What an event does to the form: keys act when pressed or repeated, key
/// releases and other events change nothing.
pub open spec fn form_step(m: FormModel, e: FormEvent) -> (FormModel, FormStep) {
    match e {
        FormEvent::Other => (m, FormStep::Continue),
        FormEvent::Key(key, phase) => if phase == KeyPhase::Release {
            (m, FormStep::Continue)
        } else {
            match key {
                FormKey::Esc => (m, FormStep::Abort),
                FormKey::Enter => (m, FormStep::Start),
                FormKey::Tab => (
                    FormModel { input_mode: ((m.input_mode + 1) % 2) as nat, ..m },
                    FormStep::Continue,
                ),
                FormKey::Up => (
                    FormModel {
                        selected_format: if m.selected_format > 0 {
                            (m.selected_format - 1) as nat
                        } else {
                            m.selected_format
                        },
                        ..m
                    },
                    FormStep::Continue,
                ),
                FormKey::Down => (
                    FormModel {
                        selected_format: if m.selected_format < FORMAT_COUNT - 1 {
                            m.selected_format + 1
                        } else {
                            m.selected_format
                        },
                        ..m
                    },
                    FormStep::Continue,
                ),
                FormKey::Char(c) => (
                    if m.input_mode == 0 {
                        FormModel { target: m.target.push(c), ..m }
                    } else {
                        FormModel { ports: m.ports.push(c), ..m }
                    },
                    FormStep::Continue,
                ),
                FormKey::Backspace => (
                    if m.input_mode == 0 {
                        FormModel {
                            target: if m.target.len() > 0 {
                                m.target.drop_last()
                            } else {
                                m.target
                            },
                            ..m
                        }
                    } else {
                        FormModel {
                            ports: if m.ports.len() > 0 {
                                m.ports.drop_last()
                            } else {
                                m.ports
                            },
                            ..m
                        }
                    },
                    FormStep::Continue,
                ),
                FormKey::Other => (m, FormStep::Continue),
            }
        },
    }
}

/// Whether the form's choice and mode are among those it offers.
pub open spec fn form_valid(m: FormModel) -> bool {
    m.selected_format < FORMAT_COUNT && m.input_mode < 2
}

/// The scan form.
#[derive(Debug, PartialEq, Eq)]
pub struct Form {
    target: String,
    ports: String,
    selected_format: usize,
    input_mode: usize,
}

impl View for Form {
    type V = FormModel;

    closed spec fn view(&self) -> FormModel {
        FormModel {
            target: self.target@,
            ports: self.ports@,
            selected_format: self.selected_format as nat,
            input_mode: self.input_mode as nat,
        }
    }
}

impl Form {
    #[verifier::type_invariant]
    closed spec fn choice_in_range(&self) -> bool {
        self.selected_format < FORMAT_COUNT && self.input_mode < 2
    }

    /// The form as it opens: target `google.com`, ports `80,443`, `txt`
    /// chosen, the target field being edited.
    pub fn new() -> (f: Form)
        ensures
            f@ == initial_form(),
    {
        Form {
            target: "google.com".to_owned(),
            ports: "80,443".to_owned(),
            selected_format: 0,
            input_mode: 0,
        }
    }

    /// Applies one event and tells what to do next.
    pub fn handle(&mut self, e: FormEvent) -> (step: FormStep)
        ensures
            (final(self)@, step) == form_step(old(self)@, e),
            form_valid(final(self)@),
    {
        proof {
            use_type_invariant(&*self);
        }
        let (key, phase) = match e {
            FormEvent::Other => return FormStep::Continue,
            FormEvent::Key(key, phase) => (key, phase),
        };
        if phase == KeyPhase::Release {
            return FormStep::Continue;
        }
        match key {
            FormKey::Esc => FormStep::Abort,
            FormKey::Enter => FormStep::Start,
            FormKey::Tab => {
                self.input_mode = (self.input_mode + 1) % 2;
                FormStep::Continue
            },
            FormKey::Up => {
                if self.selected_format > 0 {
                    self.selected_format = self.selected_format - 1;
                }
                FormStep::Continue
            },
            FormKey::Down => {
                if self.selected_format < FORMAT_COUNT - 1 {
                    self.selected_format = self.selected_format + 1;
                }
                FormStep::Continue
            },
            FormKey::Char(c) => {
                if self.input_mode == 0 {
                    let mut text = String::new();
                    std::mem::swap(&mut text, &mut self.target);
                    push_char(&mut text, c);
                    self.target = text;
                } else {
                    let mut text = String::new();
                    std::mem::swap(&mut text, &mut self.ports);
                    push_char(&mut text, c);
                    self.ports = text;
                }
                FormStep::Continue
            },
            FormKey::Backspace => {
                if self.input_mode == 0 {
                    let mut text = String::new();
                    std::mem::swap(&mut text, &mut self.target);
                    let _ = pop_char(&mut text);
                    self.target = text;
                } else {
                    let mut text = String::new();
                    std::mem::swap(&mut text, &mut self.ports);
                    let _ = pop_char(&mut text);
                    self.ports = text;
                }
                FormStep::Continue
            },
            FormKey::Other => FormStep::Continue,
        }
    }

    /// The text of the target field.
    pub fn target(&self) -> (t: &str)
        ensures
            t@ == self@.target,
    {
        self.target.as_str()
    }

    /// The text of the ports field.
    pub fn ports(&self) -> (p: &str)
        ensures
            p@ == self@.ports,
    {
        self.ports.as_str()
    }

    /// Which field is being edited: 0 the target, 1 the ports.
    pub fn input_mode(&self) -> (m: usize)
        ensures
            m == self@.input_mode,
    {
        self.input_mode
    }

    /// The position of the chosen format in the list.
    pub fn selected_format(&self) -> (i: usize)
        ensures
            i == self@.selected_format,
    {
        self.selected_format
    }

    /// The name of the chosen format.
    pub fn format_name(&self) -> (name: &'static str)
        ensures
            name@ == format_names()[self@.selected_format as int],
    {
        proof {
            use_type_invariant(self);
        }
        if self.selected_format == 0 {
            "txt"
        } else if self.selected_format == 1 {
            "html"
        } else {
            "zip"
        }
    }

    /// The lines of the format list: `[x] ` before the chosen format, `[ ] `
    /// before the others.
    pub fn format_labels(&self) -> (labels: Vec<String>)
        ensures
            labels@.len() == FORMAT_COUNT,
            forall|i: int| #![trigger labels@[i]] 0 <= i < FORMAT_COUNT ==> labels@[i]@ == (if i
                == self@.selected_format {
                "[x] "@
            } else {
                "[ ] "@
            }) + format_names()[i],
    {
        let mut labels: Vec<String> = Vec::new();
        let mut i: usize = 0;
        while i < FORMAT_COUNT
            invariant
                i <= FORMAT_COUNT,
                labels@.len() == i,
                forall|j: int| #![trigger labels@[j]] 0 <= j < i ==> labels@[j]@ == (if j
                    == self@.selected_format {
                    "[x] "@
                } else {
                    "[ ] "@
                }) + format_names()[j],
            decreases FORMAT_COUNT - i,
        {
            let mut label = if i == self.selected_format {
                "[x] ".to_owned()
            } else {
                "[ ] ".to_owned()
            };
            if i == 0 {
                label.append("txt");
            } else if i == 1 {
                label.append("html");
            } else {
                label.append("zip");
            }
            labels.push(label);
            i = i + 1;
        }
        labels
    }
}


/// Up and Down move the choice of format one entry up or down the list, and
/// stop at its ends; inside the list each undoes the other. Neither touches
/// the fields or which one is edited, and the form keeps going.
pub proof fn lemma_format_choice_steps(m: FormModel, phase: KeyPhase)
    requires
        form_valid(m),
        phase != KeyPhase::Release,
    ensures
        form_step(m, FormEvent::Key(FormKey::Up, phase)).0.selected_format == if m.selected_format
            > 0 {
            (m.selected_format - 1) as nat
        } else {
            0nat
        },
        form_step(m, FormEvent::Key(FormKey::Down, phase)).0.selected_format == if m.selected_format
            + 1 < FORMAT_COUNT {
            m.selected_format + 1
        } else {
            (FORMAT_COUNT - 1) as nat
        },
        m.selected_format > 0 ==> form_step(
            form_step(m, FormEvent::Key(FormKey::Up, phase)).0,
            FormEvent::Key(FormKey::Down, phase),
        ).0 == m,
        m.selected_format + 1 < FORMAT_COUNT ==> form_step(
            form_step(m, FormEvent::Key(FormKey::Down, phase)).0,
            FormEvent::Key(FormKey::Up, phase),
        ).0 == m,
        form_step(m, FormEvent::Key(FormKey::Up, phase)).0.target == m.target,
        form_step(m, FormEvent::Key(FormKey::Up, phase)).0.ports == m.ports,
        form_step(m, FormEvent::Key(FormKey::Up, phase)).0.input_mode == m.input_mode,
        form_step(m, FormEvent::Key(FormKey::Down, phase)).0.target == m.target,
        form_step(m, FormEvent::Key(FormKey::Down, phase)).0.ports == m.ports,
        form_step(m, FormEvent::Key(FormKey::Down, phase)).0.input_mode == m.input_mode,
        form_step(m, FormEvent::Key(FormKey::Up, phase)).1 == FormStep::Continue,
        form_step(m, FormEvent::Key(FormKey::Down, phase)).1 == FormStep::Continue,
{
}

/// Typing a character and then Backspace leaves the form as it was; Tab
/// twice returns to the field that was edited. Typing edits only the field
/// being edited, at its end.
pub proof fn lemma_editing_steps(m: FormModel, c: char, phase: KeyPhase)
    requires
        form_valid(m),
        phase != KeyPhase::Release,
    ensures
        form_step(
            form_step(m, FormEvent::Key(FormKey::Char(c), phase)).0,
            FormEvent::Key(FormKey::Backspace, phase),
        ).0 == m,
        form_step(form_step(m, FormEvent::Key(FormKey::Tab, phase)).0, FormEvent::Key(FormKey::Tab, phase)).0
            == m,
        form_step(m, FormEvent::Key(FormKey::Tab, phase)).0.input_mode != m.input_mode,
        m.input_mode == 0 ==> form_step(m, FormEvent::Key(FormKey::Char(c), phase)).0.target
            == m.target.push(c) && form_step(m, FormEvent::Key(FormKey::Char(c), phase)).0.ports
            == m.ports,
        m.input_mode == 1 ==> form_step(m, FormEvent::Key(FormKey::Char(c), phase)).0.ports
            == m.ports.push(c) && form_step(m, FormEvent::Key(FormKey::Char(c), phase)).0.target
            == m.target,
{
    assert(m.target.push(c).drop_last() =~= m.target);
    assert(m.ports.push(c).drop_last() =~= m.ports);
}

/// Enter starts and Escape abandons the scan, without changing the form;
/// a key coming up, or any other event, changes nothing.
pub proof fn lemma_final_and_idle_steps(m: FormModel, key: FormKey, phase: KeyPhase)
    requires
        phase != KeyPhase::Release,
    ensures
        form_step(m, FormEvent::Key(FormKey::Enter, phase)) == (m, FormStep::Start),
        form_step(m, FormEvent::Key(FormKey::Esc, phase)) == (m, FormStep::Abort),
        form_step(m, FormEvent::Key(key, KeyPhase::Release)) == (m, FormStep::Continue),
        form_step(m, FormEvent::Other) == (m, FormStep::Continue),
{
}

} // verus!
