//! Open files.
pub mod epoll;
pub mod eventfd;
pub mod pipe;
pub mod unix_socket;
