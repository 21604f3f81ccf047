use colony::fsm::{advance, transition, Automaton};
use colony::messenger::Messenger;
use colony::object::External;

#[derive(Clone, Copy, PartialEq, Debug)]
enum Light {
    Red,
    Green,
}

struct Signal {
    light: Light,
    log: Vec<String>,
    updates: u32,
}

impl Automaton for Signal {
    type Action = u32;
    type State = Light;

    fn current(&self) -> Light {
        self.light
    }

    fn next(&self, external: &External) -> Light {
        if external.now % 2 == 0 {
            Light::Green
        } else {
            Light::Red
        }
    }

    fn state(&self) -> Light {
        self.light
    }

    fn set_state(&mut self, state: Light) {
        self.light = state;
    }

    fn differ(a: Light, b: Light) -> bool {
        a != b
    }

    fn enter_from(&mut self, from: Light) {
        self.log.push(format!("entered {:?} from {:?}", self.light, from));
    }

    fn exit_to(&mut self, to: Light) {
        self.log.push(format!("left {:?} for {:?}", self.light, to));
    }

    fn next_state(&self, external: &External) -> Light {
        self.next(external)
    }

    fn update(&mut self, _external: &External, _messenger: &Messenger) -> Option<u32> {
        self.updates += 1;
        if self.light == Light::Green {
            Some(self.updates)
        } else {
            None
        }
    }
}

#[test]
fn hooks_run_around_a_change_of_state() {
    let mut signal = Signal { light: Light::Red, log: Vec::new(), updates: 0 };
    let mut external = External::new((1, 1), 1);
    transition(&mut signal, &external);
    assert_eq!(signal.light, Light::Red);
    assert!(signal.log.is_empty());
    external.update(2);
    transition(&mut signal, &external);
    assert_eq!(signal.light, Light::Green);
    assert_eq!(signal.log, vec!["left Red for Green".to_string(), "entered Green from Red".to_string()]);
}

#[test]
fn advance_updates_in_the_new_state() {
    let bus = Messenger::new(0);
    let mut signal = Signal { light: Light::Red, log: Vec::new(), updates: 0 };
    let mut external = External::new((1, 1), 0);
    assert_eq!(advance(&mut signal, &external, &bus), Some(1));
    external.update(3);
    assert_eq!(advance(&mut signal, &external, &bus), None);
    assert_eq!(signal.updates, 2);
    assert_eq!(signal.log.len(), 4);
}

#[test]
fn empty_table_keeps_the_state() {
    let signal = Signal { light: Light::Green, log: Vec::new(), updates: 0 };
    assert_eq!(signal.by_probability(&Vec::new()), Light::Green);
    assert_eq!(signal.by_probability(&vec![(Light::Red, 1_000_000)]), Light::Red);
}
