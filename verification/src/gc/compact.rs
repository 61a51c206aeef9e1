pub mod lisp_2;
pub mod two_finger;
pub mod slide_laws;
pub mod finger_laws;
