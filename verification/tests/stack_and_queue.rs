use dsalib::node::Node;
use dsalib::queue::Queue;
use dsalib::stack::Stack;

#[test]
fn test_stack() {
    let mut stack = Stack::new();
    stack.push(1);
    stack.push(2);
    stack.push(3);
    assert_eq!(
        stack,
        Stack {
            len: 3,
            top: Some(Box::new(Node {
                data: 3,
                next: Some(Box::new(Node {
                    data: 2,
                    next: Some(Box::new(Node { data: 1, next: None }))
                }))
            }))
        }
    );
    assert_eq!(stack.peek(), Some(&3));
    *stack.peek_mut().unwrap() = 4;
    assert_eq!(stack.pop(), Some(4));
    assert_eq!(stack.peek(), Some(&2));
    assert_eq!(stack.pop(), Some(2));
    assert_eq!(stack.peek(), Some(&1));
    assert_eq!(stack.pop(), Some(1));
    assert_eq!(stack.pop(), None);
    assert_eq!(stack.peek(), None);
}

#[test]
fn test_queue_order() {
    let mut queue = Queue::new();
    queue.push(1);
    queue.push(2);
    queue.push(3);
    assert_eq!(queue.pop(), Some(1));
    queue.push(4);
    assert_eq!(queue.pop(), Some(2));
    assert_eq!(queue.pop(), Some(3));
    assert_eq!(queue.pop(), Some(4));
    assert_eq!(queue.pop(), None);
}

#[test]
fn test_node_push_appends_at_end() {
    let mut node = Node::from(1);
    node.push(2);
    node.push(3);
    assert_eq!(
        node,
        Node {
            data: 1,
            next: Some(Box::new(Node {
                data: 2,
                next: Some(Box::new(Node { data: 3, next: None }))
            }))
        }
    );
}
