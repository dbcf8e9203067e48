use vstd::prelude::*;

pub mod codec;
pub mod nav;
pub mod pet;
pub mod state;

pub use codec::decode_pets;
pub use codec::encode_pets;
pub use nav::next_index;
pub use nav::prev_index;
pub use pet::Pet;
pub use pet::make_random_pet;
pub use state::Action;
pub use state::App;
pub use state::Event;
pub use state::Key;
pub use state::Tab;
pub use state::add_random_pet_to_db;
pub use state::dispatch;
pub use state::get_chans_list;
pub use state::remove_pet_at_index;
pub use state::tab_index;
pub use state::tick_timeout_ms;

verus! {

} // verus!
