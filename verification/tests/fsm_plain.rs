use automation::fsm::{Fsm, State, Transition};

enum ActionState {
    Eat {
        food: String,
        food_sum: u32,
        food_count: u32,
    },
    Nap {
        tick_time: u32,
    },
    Entry,
    Exit,
}

impl ActionState {
    fn work(&mut self) {
        match self {
            ActionState::Eat {
                food: _,
                food_sum: _,
                food_count,
            } => {
                // Eat one per tick
                if *food_count > 0 {
                    *food_count = *food_count - 1;
                } else {
                    *food_count = 0;
                }
            }

            ActionState::Nap { tick_time } => {
                if *tick_time > 0 {
                    *tick_time = *tick_time - 1;
                } else {
                    *tick_time = 0;
                }
            }
            _ => {}
        }
    }

    fn can_exit(&self) -> bool {
        match self {
            ActionState::Eat {
                food: _,
                food_sum: _,
                food_count,
            } => {
                // Eat should not be exited until finishing eating
                *food_count == 0
            }
            _ => true,
        }
    }
}

impl State<()> for ActionState {
    fn enter(&mut self, _ctx: &mut ()) {
        match self {
            ActionState::Eat {
                food: _,
                food_sum,
                food_count,
            } => {
                // Eat one immediately while entering
                if *food_sum > 0 {
                    *food_count = *food_sum - 1;
                } else {
                    *food_count = 0;
                }
            }
            _ => {}
        }
    }

    fn tick(&mut self, _ctx: &mut ()) -> bool {
        self.work();
        self.can_exit()
    }

    fn exit(&mut self, _ctx: &mut ()) {}
}

enum ActionTransition {
    Direct,
    EatFinished { food: String },
    NapOnce,
    NapFinished,
}

impl Transition<(), ActionState> for ActionTransition {
    fn satisfied(&self, _ctx: &mut (), src: &ActionState, _dst: &ActionState) -> bool {
        match self {
            ActionTransition::Direct => true,

            ActionTransition::EatFinished { food: state_food } => {
                if let ActionState::Eat {
                    food: transition_food,
                    food_sum: _,
                    food_count: _,
                } = src
                {
                    return *state_food == *transition_food;
                }
                false
            }

            ActionTransition::NapOnce => {
                if let ActionState::Nap { tick_time } = src {
                    return *tick_time != 0;
                }
                false
            }

            ActionTransition::NapFinished => {
                if let ActionState::Nap { tick_time } = src {
                    return *tick_time == 0;
                }
                false
            }
        }
    }
}

#[test]
fn fsm_exit_directly() {
    let mut fsm = Fsm::new(ActionState::Entry, ActionState::Exit);
    let entry_id = fsm.entry_state_id();
    let exit_id = fsm.exit_state_id();
    fsm.add_transition(entry_id, exit_id, ActionTransition::Direct);
    assert_eq!(fsm.curr_state_id(), entry_id);
    fsm.tick(&mut ());
    assert_eq!(fsm.curr_state_id(), exit_id);
    fsm.tick(&mut ());
    assert_eq!(fsm.curr_state_id(), exit_id);
}

#[test]
fn fsm_eat_fish_and_then_chip() {
    let mut fsm = Fsm::new(ActionState::Entry, ActionState::Exit);
    let entry_id = fsm.entry_state_id();
    let exit_id = fsm.exit_state_id();
    let eat_fish_id = fsm.add_state(ActionState::Eat {
        food: "Fish".to_string(),
        food_sum: 2,
        food_count: 2,
    });
    let eat_chip_id = fsm.add_state(ActionState::Eat {
        food: "Chip".to_string(),
        food_sum: 3,
        food_count: 3,
    });

    fsm.add_transition(entry_id, eat_fish_id, ActionTransition::Direct);
    fsm.add_transition(
        eat_fish_id,
        eat_chip_id,
        ActionTransition::EatFinished {
            food: "Fish".to_string(),
        },
    );
    fsm.add_transition(
        eat_chip_id,
        exit_id,
        ActionTransition::EatFinished {
            food: "Chip".to_string(),
        },
    );

    assert_eq!(fsm.curr_state_id(), entry_id);
    fsm.tick(&mut ());
    assert_eq!(fsm.curr_state_id(), eat_fish_id);
    fsm.tick(&mut ());
    assert_eq!(fsm.curr_state_id(), eat_chip_id);
    fsm.tick(&mut ());
    assert_eq!(fsm.curr_state_id(), eat_chip_id);
    fsm.tick(&mut ());
    assert_eq!(fsm.curr_state_id(), exit_id);
}

#[test]
fn fsm_eat_fish_and_then_nap() {
    let mut fsm = Fsm::new(ActionState::Entry, ActionState::Exit);
    let entry_id = fsm.entry_state_id();
    let exit_id = fsm.exit_state_id();
    let eat_fish_id = fsm.add_state(ActionState::Eat {
        food: "Fish".to_string(),
        food_sum: 2,
        food_count: 2,
    });
    let nap_id = fsm.add_state(ActionState::Nap { tick_time: 2 });

    fsm.add_transition(entry_id, eat_fish_id, ActionTransition::Direct);
    fsm.add_transition(
        eat_fish_id,
        nap_id,
        ActionTransition::EatFinished {
            food: "Fish".to_string(),
        },
    );
    fsm.add_transition(nap_id, exit_id, ActionTransition::NapOnce);

    assert_eq!(fsm.curr_state_id(), entry_id);
    fsm.tick(&mut ());
    assert_eq!(fsm.curr_state_id(), eat_fish_id);
    fsm.tick(&mut ());
    assert_eq!(fsm.curr_state_id(), nap_id);
    fsm.tick(&mut ());
    assert_eq!(fsm.curr_state_id(), exit_id);
}

#[test]
fn fsm_eat_and_nap_by_turn() {
    let mut fsm = Fsm::new(ActionState::Entry, ActionState::Exit);
    let entry_id = fsm.entry_state_id();
    let exit_id = fsm.exit_state_id();
    let eat_fish_id = fsm.add_state(ActionState::Eat {
        food: "Fish".to_string(),
        food_sum: 3,
        food_count: 3,
    });
    let nap_id = fsm.add_state(ActionState::Nap { tick_time: 2 });

    fsm.add_transition(entry_id, eat_fish_id, ActionTransition::Direct);
    fsm.add_transition(
        eat_fish_id,
        nap_id,
        ActionTransition::EatFinished {
            food: "Fish".to_string(),
        },
    );
    fsm.add_transition(nap_id, eat_fish_id, ActionTransition::NapOnce);
    fsm.add_transition(nap_id, exit_id, ActionTransition::NapFinished);

    assert_eq!(fsm.curr_state_id(), entry_id);
    fsm.tick(&mut ());
    assert_eq!(fsm.curr_state_id(), eat_fish_id);
    fsm.tick(&mut ());
    assert_eq!(fsm.curr_state_id(), eat_fish_id);
    fsm.tick(&mut ());
    assert_eq!(fsm.curr_state_id(), nap_id);
    fsm.tick(&mut ());
    assert_eq!(fsm.curr_state_id(), eat_fish_id);
    fsm.tick(&mut ());
    assert_eq!(fsm.curr_state_id(), eat_fish_id);
    fsm.tick(&mut ());
    assert_eq!(fsm.curr_state_id(), nap_id);
    fsm.tick(&mut ());
    assert_eq!(fsm.curr_state_id(), exit_id);
}
